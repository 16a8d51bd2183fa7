//! Character-level helpers: decimal numbers, splitting and string building.
use vstd::prelude::*;

verus! {

/// Relies on `String::push`: appends one character at the end.
#[verifier::external_body]
pub(crate) fn push_char(s: &mut String, c: char)
    ensures
        final(s)@ == old(s)@.push(c),
{
    s.push(c)
}

/// The characters of `s`, in order.
pub fn chars_of(s: &str) -> (r: Vec<char>)
    ensures
        r@ == s@,
{
    let mut r: Vec<char> = Vec::new();
    for c in it: s.chars()
        invariant
            r@ == it.seq().take(it.index() as int),
            it.seq() == s@,
    {
        r.push(c);
    }
    r
}

/// Appends the characters `v[lo..hi]` to `s`.
pub fn push_chars(s: &mut String, v: &Vec<char>, lo: usize, hi: usize)
    requires
        lo <= hi <= v@.len(),
    ensures
        final(s)@ == old(s)@ + v@.subrange(lo as int, hi as int),
{
    let mut i: usize = lo;
    while i < hi
        invariant
            lo <= i <= hi <= v@.len(),
            s@ == old(s)@ + v@.subrange(lo as int, i as int),
        decreases hi - i,
    {
        push_char(s, v[i]);
        i = i + 1;
        assert(v@.subrange(lo as int, i as int) == v@.subrange(lo as int, i - 1).push(v@[i - 1]));
    }
}

/// A string holding the characters `v[lo..hi]`.
pub fn string_of(v: &Vec<char>, lo: usize, hi: usize) -> (r: String)
    requires
        lo <= hi <= v@.len(),
    ensures
        r@ == v@.subrange(lo as int, hi as int),
{
    let mut r = String::new();
    push_chars(&mut r, v, lo, hi);
    r
}

pub open spec fn pow10(e: nat) -> nat
    decreases e,
{
    if e == 0 {
        1
    } else {
        10 * pow10((e - 1) as nat)
    }
}

/// The character of a decimal digit `d < 10`.
pub open spec fn digit_char(d: int) -> char {
    if d == 0 {
        '0'
    } else if d == 1 {
        '1'
    } else if d == 2 {
        '2'
    } else if d == 3 {
        '3'
    } else if d == 4 {
        '4'
    } else if d == 5 {
        '5'
    } else if d == 6 {
        '6'
    } else if d == 7 {
        '7'
    } else if d == 8 {
        '8'
    } else {
        '9'
    }
}

pub open spec fn is_digit(c: char) -> bool {
    '0' <= c <= '9'
}

/// The value of a decimal digit character.
pub open spec fn digit_value(c: char) -> nat {
    (c as u32 - '0' as u32) as nat
}

pub open spec fn all_digits(s: Seq<char>) -> bool {
    forall|i: int| 0 <= i < s.len() ==> is_digit(#[trigger] s[i])
}

/// The number that a string of decimal digits denotes.
pub open spec fn digits_value(s: Seq<char>) -> nat
    decreases s.len(),
{
    if s.len() == 0 {
        0
    } else {
        digits_value(s.drop_last()) * 10 + digit_value(s.last())
    }
}

/// The shortest decimal text of `n`.
pub open spec fn decimal(n: nat) -> Seq<char>
    decreases n,
{
    if n < 10 {
        seq![digit_char(n as int)]
    } else {
        decimal(n / 10).push(digit_char((n % 10) as int))
    }
}

/// The text after an optional leading `+`.
pub open spec fn unsigned_digits(s: Seq<char>) -> Seq<char> {
    if s.len() > 0 && s[0] == '+' {
        s.drop_first()
    } else {
        s
    }
}

/// An unsigned integer in text: an optional `+`, then one or more digits.
pub open spec fn parse_nat(s: Seq<char>) -> Option<nat> {
    let t = unsigned_digits(s);
    if t.len() > 0 && all_digits(t) {
        Some(digits_value(t))
    } else {
        None
    }
}

/// `parse_nat`, where the number must fit in a `u64`.
pub open spec fn parse_u64(s: Seq<char>) -> Option<u64> {
    match parse_nat(s) {
        Some(n) => if n <= u64::MAX {
            Some(n as u64)
        } else {
            None
        },
        None => None,
    }
}

proof fn lemma_digit_char(d: int)
    requires
        0 <= d < 10,
    ensures
        is_digit(digit_char(d)),
        digit_value(digit_char(d)) == d,
        digit_char(d) != '+',
{
}

pub proof fn lemma_decimal(n: nat)
    ensures
        decimal(n).len() > 0,
        all_digits(decimal(n)),
        digits_value(decimal(n)) == n,
        decimal(n)[0] != '+',
    decreases n,
{
    if n < 10 {
        lemma_digit_char(n as int);
        assert(decimal(n).drop_last() =~= Seq::<char>::empty());
        assert(decimal(n).last() == digit_char(n as int));
        assert(digits_value(Seq::<char>::empty()) == 0);
    } else {
        lemma_decimal(n / 10);
        lemma_digit_char((n % 10) as int);
        assert(n == (n / 10) * 10 + n % 10);
        let s = decimal(n);
        assert(s.last() == digit_char((n % 10) as int));
        assert(s.drop_last() == decimal(n / 10));
        assert(digits_value(s.drop_last()) == n / 10);
        assert(digit_value(s.last()) == n % 10);
        assert(digits_value(s) == digits_value(s.drop_last()) * 10 + digit_value(s.last()));
        assert(s.drop_last() == decimal(n / 10));
        assert forall|i: int| 0 <= i < s.len() implies is_digit(#[trigger] s[i]) by {
            if i < s.len() - 1 {
                assert(s[i] == decimal(n / 10)[i]);
            }
        }
    }
}

/// Reading back the decimal text of a number gives the number.
pub proof fn lemma_parse_decimal(n: u64)
    ensures
        parse_u64(decimal(n as nat)) == Some(n),
{
    lemma_decimal(n as nat);
}

proof fn lemma_digits_value_prefix(s: Seq<char>, i: int, j: int)
    requires
        0 <= i <= j <= s.len(),
    ensures
        digits_value(s.take(i)) <= digits_value(s.take(j)),
    decreases j - i,
{
    if i < j {
        lemma_digits_value_prefix(s, i, j - 1);
        assert(s.take(j).drop_last() == s.take(j - 1));
    }
}

/// Reads the unsigned integer in `s[lo..hi]`.
pub fn parse_u64_at(s: &Vec<char>, lo: usize, hi: usize) -> (r: Option<u64>)
    requires
        lo <= hi <= s@.len(),
    ensures
        r == parse_u64(s@.subrange(lo as int, hi as int)),
{
    let ghost full = s@.subrange(lo as int, hi as int);
    let mut start = lo;
    if lo < hi && s[lo] == '+' {
        start = lo + 1;
    }
    let ghost t = s@.subrange(start as int, hi as int);
    assert(t == unsigned_digits(full));
    if start == hi {
        return None;
    }
    let mut acc: u64 = 0;
    let mut i: usize = start;
    while i < hi
        invariant
            lo <= start <= i <= hi <= s@.len(),
            t == s@.subrange(start as int, hi as int),
            full == s@.subrange(lo as int, hi as int),
            t == unsigned_digits(full),
            all_digits(t.take(i - start)),
            acc == digits_value(t.take(i - start)),
        decreases hi - i,
    {
        let c = s[i];
        assert(c == t[i - start]);
        if !('0' <= c && c <= '9') {
            assert(!is_digit(t[i - start]));
            assert(!all_digits(t));

            return None;
        }
        let d = (c as u32 - '0' as u32) as u64;
        assert(t.take(i - start + 1).drop_last() == t.take(i - start));
        if acc > (u64::MAX - d) / 10 {
            // the number does not fit: the rest cannot make it smaller,
            // but a later non-digit still makes the text invalid
            let mut j: usize = i + 1;
            while j < hi
                invariant
                    start <= i < j <= hi <= s@.len(),
                    t == s@.subrange(start as int, hi as int),
                    full == s@.subrange(lo as int, hi as int),
                    t == unsigned_digits(full),
                    all_digits(t.take(j - start)),
                decreases hi - j,
            {
                if !('0' <= s[j] && s[j] <= '9') {
                    assert(t[j - start] == s@[j as int]);
                    assert(!is_digit(t[j - start]));
                    return None;
                }
                assert(t.take(j - start + 1)[j - start] == s@[j as int]);
                j = j + 1;
            }
            proof {
                assert(t.take(hi - start) == t);
                lemma_digits_value_prefix(t, i - start + 1, t.len() as int);
                assert(digits_value(t.take(i - start + 1)) == acc * 10 + d);
                assert(acc * 10 + d > u64::MAX) by (nonlinear_arith)
                    requires
                        acc > (u64::MAX - d) / 10,
                        d < 10,
                ;
            }
            return None;
        }
        acc = acc * 10 + d;
        i = i + 1;
    }
    assert(t.take(hi - start) == t);
    Some(acc)
}

/// Appends the decimal text of `n` to `s`.
pub fn push_decimal(s: &mut String, n: u64)
    ensures
        final(s)@ == old(s)@ + decimal(n as nat),
    decreases n,
{
    if n >= 10 {
        push_decimal(s, n / 10);
    }
    push_char(s, digit(n % 10));
    assert(old(s)@ + decimal(n as nat) == old(s)@ + decimal((n / 10) as nat) + seq![digit_char((n % 10) as int)] || n < 10);
}

/// Appends the decimal text of a wide `n` to `s`.
pub fn push_decimal_wide(s: &mut String, n: u128)
    ensures
        final(s)@ == old(s)@ + decimal(n as nat),
    decreases n,
{
    if n >= 10 {
        push_decimal_wide(s, n / 10);
    }
    push_char(s, digit((n % 10) as u64));
    assert(old(s)@ + decimal(n as nat) == old(s)@ + decimal((n / 10) as nat) + seq![digit_char((n % 10) as int)] || n < 10);
}

/// The character of the decimal digit `d`.
pub fn digit(d: u64) -> (c: char)
    requires
        d < 10,
    ensures
        c == digit_char(d as int),
{
    if d == 0 {
        '0'
    } else if d == 1 {
        '1'
    } else if d == 2 {
        '2'
    } else if d == 3 {
        '3'
    } else if d == 4 {
        '4'
    } else if d == 5 {
        '5'
    } else if d == 6 {
        '6'
    } else if d == 7 {
        '7'
    } else if d == 8 {
        '8'
    } else {
        '9'
    }
}


/// The pieces of `s` between occurrences of `c`; there is always at least one.
pub open spec fn split(s: Seq<char>, c: char) -> Seq<Seq<char>>
    decreases s.len(),
{
    if s.len() == 0 {
        seq![Seq::empty()]
    } else {
        let p = split(s.drop_last(), c);
        if s.last() == c {
            p.push(Seq::empty())
        } else {
            p.update(p.len() - 1, p.last().push(s.last()))
        }
    }
}

pub open spec fn free_of(s: Seq<char>, c: char) -> bool {
    forall|i: int| 0 <= i < s.len() ==> s[i] != c
}

pub proof fn lemma_split_len(s: Seq<char>, c: char)
    ensures
        split(s, c).len() >= 1,
    decreases s.len(),
{
    if s.len() > 0 {
        lemma_split_len(s.drop_last(), c);
    }
}

/// Text free of the separator extends the last piece.
pub proof fn lemma_split_append_free(p: Seq<char>, y: Seq<char>, c: char)
    requires
        free_of(y, c),
    ensures
        split(p + y, c) == split(p, c).update(split(p, c).len() - 1, split(p, c).last() + y),
    decreases y.len(),
{
    lemma_split_len(p, c);
    if y.len() == 0 {
        assert(p + y == p);
        assert(split(p, c).last() + y == split(p, c).last());
        assert(split(p, c).update(split(p, c).len() - 1, split(p, c).last()) =~= split(p, c));
    } else {
        let y0 = y.drop_last();
        lemma_split_append_free(p, y0, c);
        assert((p + y).drop_last() == p + y0);
        assert((p + y).last() == y.last());
        lemma_split_len(p + y0, c);
        assert(split(p, c).last() + y0 + seq![y.last()] =~= split(p, c).last() + y);
        assert(y.last() != c);
        let q = split(p + y0, c);
        assert(q.len() == split(p, c).len());
        assert(q.last() == split(p, c).last() + y0);
        assert(split(p + y, c) == q.update(q.len() - 1, q.last().push(y.last())));
        assert(q.last().push(y.last()) =~= split(p, c).last() + y);
        assert(split(p + y, c) =~= split(p, c).update(split(p, c).len() - 1, split(p, c).last() + y));
    }
}

/// A separator starts a new, empty piece.
pub proof fn lemma_split_push_sep(p: Seq<char>, c: char)
    ensures
        split(p.push(c), c) == split(p, c).push(Seq::empty()),
{
    assert(p.push(c).drop_last() == p);
}

/// A text with no separator is a single piece.
pub proof fn lemma_split_single(y: Seq<char>, c: char)
    requires
        free_of(y, c),
    ensures
        split(y, c) == seq![y],
{
    lemma_split_append_free(Seq::empty(), y, c);
    assert(Seq::<char>::empty() + y == y);
    assert(split(Seq::<char>::empty(), c) == seq![Seq::<char>::empty()]);
    assert(seq![Seq::<char>::empty()].update(0, Seq::<char>::empty() + y) =~= seq![y]);
}

pub open spec fn views_of(v: Seq<Vec<char>>) -> Seq<Seq<char>> {
    v.map_values(|p: Vec<char>| p@)
}

/// Cuts `v` at each occurrence of `c`.
pub fn split_chars(v: &Vec<char>, c: char) -> (r: Vec<Vec<char>>)
    ensures
        views_of(r@) == split(v@, c),
{
    let mut done: Vec<Vec<char>> = Vec::new();
    let mut cur: Vec<char> = Vec::new();
    let mut i: usize = 0;
    assert(v@.take(0) =~= Seq::<char>::empty());
    assert(views_of(done@).push(cur@) =~= seq![Seq::<char>::empty()]);
    while i < v.len()
        invariant
            i <= v@.len(),
            split(v@.take(i as int), c) == views_of(done@).push(cur@),
        decreases v@.len() - i,
    {
        let ch = v[i];
        assert(v@.take(i + 1).drop_last() == v@.take(i as int));
        assert(v@.take(i + 1).last() == ch);
        if ch == c {
            let ghost before = views_of(done@);
            done.push(cur);
            cur = Vec::new();
            assert(views_of(done@) =~= before.push(views_of(done@).last()));
        } else {
            cur.push(ch);
            assert(views_of(done@).push(cur@) =~= split(v@.take(i + 1), c));
        }
        i = i + 1;
        assert(split(v@.take(i as int), c) =~= views_of(done@).push(cur@));
    }
    assert(v@.take(i as int) == v@);
    done.push(cur);
    assert(views_of(done@) =~= split(v@, c));
    done
}


/// The digits of the fraction `f / 10^places`, without trailing zeros.
pub open spec fn fraction_digits(f: nat, places: nat) -> Seq<char>
    decreases places,
{
    if f == 0 || places == 0 {
        Seq::empty()
    } else {
        let p = pow10((places - 1) as nat);
        seq![digit_char((f / p) as int)] + fraction_digits(f % p, (places - 1) as nat)
    }
}

/// The fraction that the digits `s` denote, in units of `10^-places`;
/// digits past `places` are dropped.
pub open spec fn fraction_value(s: Seq<char>, places: nat) -> nat
    decreases places,
{
    if places == 0 {
        0
    } else {
        let p = pow10((places - 1) as nat);
        if s.len() > 0 {
            digit_value(s[0]) * p + fraction_value(s.drop_first(), (places - 1) as nat)
        } else {
            fraction_value(s, (places - 1) as nat)
        }
    }
}

pub open spec fn nanos_per_sec() -> nat {
    pow10(9)
}

/// A duration of `ns` nanoseconds as decimal seconds: the whole seconds, then,
/// unless the duration is whole, a point and the fraction without trailing zeros.
pub open spec fn seconds_text(ns: nat) -> Seq<char> {
    let whole = ns / nanos_per_sec();
    let frac = ns % nanos_per_sec();
    if frac == 0 {
        decimal(whole)
    } else {
        decimal(whole) + seq!['.'] + fraction_digits(frac, 9)
    }
}

/// Decimal seconds read as nanoseconds: whole seconds as `parse_nat` takes them,
/// then optionally a point and one or more digits; the result must fit in a `u64`.
pub open spec fn parse_seconds(s: Seq<char>) -> Option<u64> {
    let parts = split(s, '.');
    let frac = if parts.len() == 2 {
        fraction_value(parts[1], 9)
    } else {
        0
    };
    if parts.len() > 2 || (parts.len() == 2 && !(parts[1].len() > 0 && all_digits(parts[1]))) {
        None
    } else {
        match parse_nat(parts[0]) {
            Some(w) => if w * nanos_per_sec() + frac <= u64::MAX {
                Some((w * nanos_per_sec() + frac) as u64)
            } else {
                None
            },
            None => None,
        }
    }
}

proof fn lemma_pow10_9()
    ensures
        pow10(9) == 1_000_000_000,
        nanos_per_sec() == 1_000_000_000,
{
    reveal_with_fuel(pow10, 10);
}

proof fn lemma_pow10_19()
    ensures
        pow10(19) == 10_000_000_000_000_000_000,
{
    reveal_with_fuel(pow10, 20);
}

proof fn lemma_pow10_pos(e: nat)
    ensures
        pow10(e) >= 1,
    decreases e,
{
    if e > 0 {
        lemma_pow10_pos((e - 1) as nat);
    }
}

proof fn lemma_fraction_digits(f: nat, places: nat)
    requires
        f < pow10(places),
    ensures
        all_digits(fraction_digits(f, places)),
        free_of(fraction_digits(f, places), '.'),
        f > 0 ==> fraction_digits(f, places).len() > 0,
        fraction_value(fraction_digits(f, places), places) == f,
    decreases places,
{
    if f == 0 || places == 0 {
        lemma_fraction_value_empty(places);
    } else {
        let q = (places - 1) as nat;
        let p = pow10(q);
        lemma_pow10_pos(q);
        let d = f / p;
        assert(d < 10) by (nonlinear_arith)
            requires
                f < 10 * p,
                d == f / p,
                p >= 1,
        ;
        assert(f == d * p + f % p) by (nonlinear_arith)
            requires
                d == f / p,
                p >= 1,
        ;
        lemma_digit_char(d as int);
        lemma_fraction_digits(f % p, q);
        let s = fraction_digits(f, places);
        assert(s.drop_first() == fraction_digits(f % p, q));
        assert(s[0] == digit_char(d as int));
        assert forall|i: int| 0 <= i < s.len() implies is_digit(#[trigger] s[i]) && s[i] != '.' by {
            if i > 0 {
                assert(s[i] == s.drop_first()[i - 1]);
            }
        }
    }
}

proof fn lemma_fraction_value_empty(places: nat)
    ensures
        fraction_value(Seq::empty(), places) == 0,
    decreases places,
{
    if places > 0 {
        lemma_fraction_value_empty((places - 1) as nat);
    }
}

/// The decimal text of a number holds no character but digits.
pub proof fn lemma_decimal_free(n: nat, c: char)
    requires
        !is_digit(c),
    ensures
        free_of(decimal(n), c),
{
    lemma_decimal(n);
    assert forall|i: int| 0 <= i < decimal(n).len() implies decimal(n)[i] != c by {
        assert(is_digit(decimal(n)[i]));
    }
}

pub proof fn lemma_free_concat(a: Seq<char>, b: Seq<char>, c: char)
    requires
        free_of(a, c),
        free_of(b, c),
    ensures
        free_of(a + b, c),
{
    assert forall|i: int| 0 <= i < (a + b).len() implies (a + b)[i] != c by {
        if i >= a.len() {
            assert((a + b)[i] == b[i - a.len()]);
        }
    }
}

/// Reading back the text of a duration gives the duration.
pub proof fn lemma_parse_seconds(ns: u64)
    ensures
        parse_seconds(seconds_text(ns as nat)) == Some(ns),
        forall|i: int|
            0 <= i < seconds_text(ns as nat).len() ==> is_digit(#[trigger] seconds_text(ns as nat)[i])
                || seconds_text(ns as nat)[i] == '.',
{
    let n = nanos_per_sec();
    lemma_pow10_9();
    let whole = (ns as nat) / n;
    let frac = (ns as nat) % n;
    lemma_decimal(whole);
    lemma_decimal_free(whole, '.');
    assert(parse_nat(decimal(whole)) == Some(whole));
    let t = seconds_text(ns as nat);
    if frac == 0 {
        lemma_split_single(t, '.');
        assert(split(t, '.')[0] == decimal(whole));
    } else {
        lemma_fraction_digits(frac, 9);
        let fd = fraction_digits(frac, 9);
        lemma_split_single(decimal(whole), '.');
        lemma_split_push_sep(decimal(whole), '.');
        lemma_split_append_free(decimal(whole).push('.'), fd, '.');
        assert(decimal(whole) + seq!['.'] == decimal(whole).push('.'));
        assert(t == decimal(whole).push('.') + fd);
        let parts = split(t, '.');
        assert(parts =~= seq![decimal(whole), fd]);
        assert forall|i: int| 0 <= i < t.len() implies is_digit(#[trigger] t[i]) || t[i] == '.' by {
            if i >= decimal(whole).len() + 1 {
                assert(t[i] == fd[i - decimal(whole).len() - 1]);
                assert(is_digit(fd[i - decimal(whole).len() - 1]));
            } else if i < decimal(whole).len() {
                assert(t[i] == decimal(whole)[i]);
            }
        }
    }
    assert((ns as nat) == whole * n + frac);
    assert(all_digits(decimal(whole)));
}


/// `10^e`.
pub fn pow10_u64(e: u64) -> (r: u64)
    requires
        e <= 19,
    ensures
        r == pow10(e as nat),
    decreases e,
{
    if e == 0 {
        1
    } else {
        let p = pow10_u64(e - 1);
        assert(pow10(e as nat) <= 10_000_000_000_000_000_000) by {
            lemma_pow10_mono(e as nat, 19);
            lemma_pow10_19();
        }
        10 * p
    }
}

proof fn lemma_pow10_mono(a: nat, b: nat)
    requires
        a <= b,
    ensures
        pow10(a) <= pow10(b),
    decreases b - a,
{
    if a < b {
        lemma_pow10_mono(a, (b - 1) as nat);
        lemma_pow10_pos((b - 1) as nat);
    }
}

fn push_fraction(s: &mut String, f: u64, places: u64)
    requires
        places <= 19,
        f < pow10(places as nat),
    ensures
        final(s)@ == old(s)@ + fraction_digits(f as nat, places as nat),
    decreases places,
{
    if f == 0 || places == 0 {
        assert(old(s)@ + Seq::<char>::empty() == old(s)@);
        return;
    }
    let p = pow10_u64(places - 1);
    proof {
        lemma_pow10_pos((places - 1) as nat);
    }
    let d = f / p;
    assert(d < 10) by (nonlinear_arith)
        requires
            f < 10 * p,
            d == f / p,
            p >= 1,
    ;
    assert(f % p < pow10((places - 1) as nat));
    push_char(s, digit(d));
    push_fraction(s, f % p, places - 1);
    assert(old(s)@ + fraction_digits(f as nat, places as nat) =~= old(s)@.push(digit_char(d as int))
        + fraction_digits((f % p) as nat, (places - 1) as nat));
}

/// Appends the text of a duration of `ns` nanoseconds, in seconds.
pub fn push_seconds(s: &mut String, ns: u64)
    ensures
        final(s)@ == old(s)@ + seconds_text(ns as nat),
{
    proof { lemma_pow10_9(); }
    let whole = ns / 1_000_000_000;
    let frac = ns % 1_000_000_000;
    push_decimal(s, whole);
    if frac != 0 {
        push_char(s, '.');
        proof { lemma_pow10_9(); }
        push_fraction(s, frac, 9);
        assert(old(s)@ + seconds_text(ns as nat) =~= old(s)@ + decimal(whole as nat) + seq!['.']
            + fraction_digits(frac as nat, 9));
    }
}

fn fraction_value_at(v: &Vec<char>, i: usize, places: u64) -> (r: u64)
    requires
        i <= v@.len(),
        all_digits(v@),
        places <= 9,
    ensures
        r == fraction_value(v@.skip(i as int), places as nat),
        r < pow10(places as nat),
    decreases places,
{
    if places == 0 {
        return 0;
    }
    let p = pow10_u64(places - 1);
    proof { lemma_pow10_9(); }
    proof {
        lemma_pow10_mono((places - 1) as nat, 9);
    }
    if i < v.len() {
        let d = (v[i] as u32 - '0' as u32) as u64;
        assert(is_digit(v@[i as int]));
        assert(v@.skip(i as int)[0] == v@[i as int]);
        assert(v@.skip(i as int).drop_first() == v@.skip(i + 1));
        let rest = fraction_value_at(v, i + 1, places - 1);
        assert(d * p + rest < 10 * p) by (nonlinear_arith)
            requires
                d <= 9,
                rest < p,
        ;
        d * p + rest
    } else {
        assert(v@.skip(i as int).len() == 0);
        let rest = fraction_value_at(v, i, places - 1);
        assert(rest < 10 * p);
        rest
    }
}

fn all_digits_in(v: &Vec<char>) -> (r: bool)
    ensures
        r == all_digits(v@),
{
    let mut i: usize = 0;
    while i < v.len()
        invariant
            i <= v@.len(),
            all_digits(v@.take(i as int)),
        decreases v@.len() - i,
    {
        if !('0' <= v[i] && v[i] <= '9') {
            assert(!is_digit(v@[i as int]));
            return false;
        }
        assert(v@.take(i + 1)[i as int] == v@[i as int]);
        i = i + 1;
    }
    assert(v@.take(i as int) == v@);
    true
}

/// Reads a duration given in decimal seconds, in nanoseconds.
pub fn parse_seconds_in(v: &Vec<char>) -> (r: Option<u64>)
    ensures
        r == parse_seconds(v@),
{
    let parts = split_chars(v, '.');
    proof {
        lemma_split_len(v@, '.');
        assert(parts@[0]@ == views_of(parts@)[0]);
    }
    let mut frac: u64 = 0;
    if parts.len() > 2 {
        return None;
    }
    if parts.len() == 2 {
        assert(parts@[1]@ == views_of(parts@)[1]);
        if parts[1].len() == 0 || !all_digits_in(&parts[1]) {
            return None;
        }
        frac = fraction_value_at(&parts[1], 0, 9);
        assert(parts@[1]@.skip(0) == parts@[1]@);
    }
    proof { lemma_pow10_9(); }
    match parse_u64_at(&parts[0], 0, parts[0].len()) {
        Some(w) => {
            assert(parts@[0]@.subrange(0, parts@[0]@.len() as int) == parts@[0]@);
            if w > (u64::MAX - frac) / 1_000_000_000 {
                assert(w * 1_000_000_000 + frac > u64::MAX) by (nonlinear_arith)
                    requires
                        w > (u64::MAX - frac) / 1_000_000_000,
                        frac < 1_000_000_000,
                ;
                None
            } else {
                assert(w * 1_000_000_000 + frac <= u64::MAX) by (nonlinear_arith)
                    requires
                        w <= (u64::MAX - frac) / 1_000_000_000,
                        frac < 1_000_000_000,
                ;
                Some(w * 1_000_000_000 + frac)
            }
        },
        None => {
            assert(parts@[0]@.subrange(0, parts@[0]@.len() as int) == parts@[0]@);
            assert(parse_nat(parts@[0]@).is_none() || parse_nat(parts@[0]@).unwrap() > u64::MAX);
            None
        },
    }
}


/// The position of the first `x` in `s`, or -1 where there is none.
pub open spec fn first_index<A>(s: Seq<A>, x: A) -> int
    decreases s.len(),
{
    if s.len() == 0 {
        -1
    } else {
        let p = first_index(s.drop_last(), x);
        if p >= 0 {
            p
        } else if s.last() == x {
            s.len() - 1
        } else {
            -1
        }
    }
}

pub proof fn lemma_first_index<A>(s: Seq<A>, x: A)
    ensures
        -1 <= first_index(s, x) < s.len(),
        first_index(s, x) >= 0 ==> s[first_index(s, x)] == x,
        forall|j: int|
            0 <= j < s.len() && (first_index(s, x) < 0 || j < first_index(s, x)) ==> s[j] != x,
    decreases s.len(),
{
    if s.len() > 0 {
        lemma_first_index(s.drop_last(), x);
        assert forall|j: int|
            0 <= j < s.len() && (first_index(s, x) < 0 || j < first_index(s, x)) implies s[j]
            != x by {
            if j < s.len() - 1 {
                assert(s[j] == s.drop_last()[j]);
            }
        }
    }
}

pub(crate) proof fn lemma_first_index_prefix<A>(s: Seq<A>, x: A, i: int)
    requires
        0 <= i <= s.len(),
        first_index(s.take(i), x) >= 0,
    ensures
        first_index(s, x) == first_index(s.take(i), x),
    decreases s.len() - i,
{
    if i < s.len() {
        assert(s.take(i + 1).drop_last() == s.take(i));
        lemma_first_index_prefix(s, x, i + 1);
    } else {
        assert(s.take(i) == s);
    }
}

/// Where `x` first stands in `v[..]`, as `first_index` gives it.
pub fn find_char(v: &Vec<char>, x: char) -> (r: Option<usize>)
    ensures
        match r {
            Some(i) => first_index(v@, x) == i,
            None => first_index(v@, x) == -1,
        },
{
    let mut i: usize = 0;
    while i < v.len()
        invariant
            i <= v@.len(),
            first_index(v@.take(i as int), x) == -1,
        decreases v@.len() - i,
    {
        assert(v@.take(i + 1).drop_last() == v@.take(i as int));
        if v[i] == x {
            proof {
                lemma_first_index_prefix(v@, x, i + 1);
            }
            return Some(i);
        }
        i = i + 1;
    }
    assert(v@.take(i as int) == v@);
    None
}

/// Whether `s[lo..hi]` holds exactly the characters of `lit`.
pub fn text_is(s: &Vec<char>, lo: usize, hi: usize, lit: &str) -> (r: bool)
    requires
        lo <= hi <= s@.len(),
    ensures
        r == (s@.subrange(lo as int, hi as int) == lit@),
{
    let l = chars_of(lit);
    if l.len() != hi - lo {
        return false;
    }
    let mut i: usize = 0;
    while i < l.len()
        invariant
            lo <= hi <= s@.len(),
            i <= l@.len() == hi - lo,
            l@ == lit@,
            forall|j: int| 0 <= j < i ==> s@[lo + j] == l@[j],
        decreases l@.len() - i,
    {
        if s[lo + i] != l[i] {
            assert(s@.subrange(lo as int, hi as int)[i as int] != l@[i as int]);
            return false;
        }
        i = i + 1;
    }
    assert(s@.subrange(lo as int, hi as int) =~= l@);
    true
}


/// The first `n` characters of `v`.
pub fn take_chars(v: &Vec<char>, n: usize) -> (r: Vec<char>)
    requires
        n <= v@.len(),
    ensures
        r@ == v@.take(n as int),
{
    let mut r: Vec<char> = Vec::new();
    let mut i: usize = 0;
    while i < n
        invariant
            i <= n <= v@.len(),
            r@ == v@.take(i as int),
        decreases n - i,
    {
        r.push(v[i]);
        i = i + 1;
        assert(r@ =~= v@.take(i as int));
    }
    r
}


/// `n` copies of `c`.
pub open spec fn repeat(c: char, n: nat) -> Seq<char> {
    Seq::new(n, |i: int| c)
}

/// `s` filled on the left with `fill` up to `width` characters.
pub open spec fn pad_left(s: Seq<char>, width: nat, fill: char) -> Seq<char> {
    if s.len() >= width {
        s
    } else {
        repeat(fill, (width - s.len()) as nat) + s
    }
}

/// Appends `n` copies of `c`.
pub fn push_repeat(s: &mut String, c: char, n: usize)
    ensures
        final(s)@ == old(s)@ + repeat(c, n as nat),
{
    let mut i: usize = 0;
    while i < n
        invariant
            i <= n,
            s@ == old(s)@ + repeat(c, i as nat),
        decreases n - i,
    {
        push_char(s, c);
        i = i + 1;
        assert(s@ =~= old(s)@ + repeat(c, i as nat));
    }
}

/// Appends the decimal text of `n`, filled on the left with `fill` up to `width`.
pub fn push_padded(s: &mut String, n: u64, width: usize, fill: char)
    ensures
        final(s)@ == old(s)@ + pad_left(decimal(n as nat), width as nat, fill),
{
    let mut t = String::new();
    push_decimal(&mut t, n);
    let len = t.as_str().unicode_len();
    if len < width {
        push_repeat(s, fill, width - len);
    }
    s.append(t.as_str());
    assert(s@ =~= old(s)@ + pad_left(decimal(n as nat), width as nat, fill));
}

/// A duration in nanoseconds as seconds with `places` decimals, rounded half up.
pub open spec fn fixed_text(ns: nat, places: nat) -> Seq<char> {
    let unit = pow10((9 - places) as nat);
    let v = (ns + unit / 2) / unit;
    let p = pow10(places);
    decimal(v / p) + seq!['.'] + pad_left(decimal(v % p), places, '0')
}

/// Appends the text of a duration of `ns` nanoseconds in seconds with `places`
/// decimals.
pub fn push_fixed(s: &mut String, ns: u64, places: u64)
    requires
        1 <= places <= 9,
    ensures
        final(s)@ == old(s)@ + fixed_text(ns as nat, places as nat),
{
    let unit = pow10_u64(9 - places);
    proof {
        if 9 - places > 0 {
            lemma_pow10_mono(1, (9 - places) as nat);
            assert(pow10(1) == 10) by {
                reveal_with_fuel(pow10, 2);
            }
        }
    }
    let p = pow10_u64(places);
    proof {
        lemma_pow10_pos((9 - places) as nat);
        lemma_pow10_pos(places as nat);
        lemma_pow10_mono((9 - places) as nat, 9);
        lemma_pow10_9();
    }
    let v: u128 = (ns as u128 + (unit / 2) as u128) / (unit as u128);
    assert(v <= ns + unit / 2) by (nonlinear_arith)
        requires
            v == (ns + unit / 2) / (unit as int),
            unit >= 1,
    ;
    let whole = v / (p as u128);
    let frac = v % (p as u128);
    assert(whole <= v) by (nonlinear_arith)
        requires
            whole == v / (p as u128),
            p >= 1,
    ;
    assert(v <= u64::MAX) by (nonlinear_arith)
        requires
            v == (ns + unit / 2) / (unit as int),
            unit >= 1,
            ns <= u64::MAX,
            unit == 1 || unit >= 10,
    ;
    assert(frac < p) by (nonlinear_arith)
        requires
            frac == v % (p as u128),
            p >= 1,
    ;
    let ghost unit_s = pow10((9 - places) as nat);
    let ghost vv: nat = ((ns + unit_s / 2) / (unit_s as int)) as nat;
    assert(vv == v);
    assert(whole == vv / pow10(places as nat));
    assert(frac == vv % pow10(places as nat));
    push_decimal(s, whole as u64);
    push_char(s, '.');
    push_padded(s, frac as u64, places as usize, '0');
    assert(s@ =~= old(s)@ + fixed_text(ns as nat, places as nat));
}

} // verus!
