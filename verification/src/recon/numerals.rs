//! Roman numerals.
use super::text::{chars_of, same_chars};
use vstd::prelude::*;

verus! {

// ── reading ─────────────────────────────────────────────────────────────────

/// The value of a roman digit.
pub open spec fn roman_digit(c: char) -> Option<int> {
    if c == 'i' {
        Some(1)
    } else if c == 'v' {
        Some(5)
    } else if c == 'x' {
        Some(10)
    } else if c == 'l' {
        Some(50)
    } else if c == 'c' {
        Some(100)
    } else if c == 'd' {
        Some(500)
    } else if c == 'm' {
        Some(1000)
    } else {
        None
    }
}

/// What digit `i` adds: a digit before a larger one is taken off.
pub open spec fn roman_term(s: Seq<char>, i: int) -> int {
    let d = roman_digit(s[i])->0;
    if i + 1 < s.len() && d < roman_digit(s[i + 1])->0 {
        -d
    } else {
        d
    }
}

/// What the first `n` digits add up to.
pub open spec fn roman_sum(s: Seq<char>, n: int) -> int
    decreases n,
{
    if n <= 0 {
        0
    } else {
        roman_sum(s, n - 1) + roman_term(s, n - 1)
    }
}

/// Every character is a small roman digit.
pub open spec fn all_roman(s: Seq<char>) -> bool {
    forall|i: int| 0 <= i < s.len() ==> roman_digit(#[trigger] s[i]) is Some
}

/// The value of a numeral in small letters.
pub open spec fn roman_number(s: Seq<char>) -> Option<u32> {
    let total = roman_sum(s, s.len() as int);
    if s.len() > 0 && all_roman(s) && 0 < total <= u32::MAX {
        Some(total as u32)
    } else {
        None
    }
}

/// The value of a roman digit.
pub fn roman_digit_value(c: char) -> (r: Option<i128>)
    ensures
        match r {
            Some(d) => roman_digit(c) == Some(d as int) && 1 <= d <= 1000,
            None => roman_digit(c) is None,
        },
{
    if c == 'i' {
        Some(1)
    } else if c == 'v' {
        Some(5)
    } else if c == 'x' {
        Some(10)
    } else if c == 'l' {
        Some(50)
    } else if c == 'c' {
        Some(100)
    } else if c == 'd' {
        Some(500)
    } else if c == 'm' {
        Some(1000)
    } else {
        None
    }
}

fn roman_of(v: &Vec<char>) -> (r: Option<u32>)
    ensures
        r == roman_number(v@),
{
    let len: usize = v.len();
    if len == 0 {
        return None;
    }
    let mut total: i128 = 0;
    let mut i: usize = 0;
    while i < len
        invariant
            i <= len,
            len == v@.len(),
            forall|k: int| 0 <= k < i ==> roman_digit(#[trigger] v@[k]) is Some,
            total == roman_sum(v@, i as int),
            -1000 * i <= total <= 1000 * i,
        decreases len - i,
    {
        let d: i128 = match roman_digit_value(v[i]) {
            Some(d) => d,
            None => {
                return None;
            },
        };
        let mut less: bool = false;
        if i + 1 < len {
            match roman_digit_value(v[i + 1]) {
                Some(e) => {
                    less = d < e;
                },
                None => {
                    assert(roman_digit(v@[i + 1]) is None);
                    return None;
                },
            }
        }
        if less {
            total = total - d;
        } else {
            total = total + d;
        }
        i = i + 1;
    }
    if total > 0 && total <= 0xffff_ffff {
        Some(total as u32)
    } else {
        None
    }
}

/// The value of a roman numeral in small letters, with the subtractive rule;
/// none where a character is not a roman digit or the digits do not add up to
/// a positive number.
pub fn roman_value(label: &str) -> (r: Option<u32>)
    ensures
        r == roman_number(label@),
{
    let v: Vec<char> = chars_of(label);
    roman_of(&v)
}

// ── spelling ────────────────────────────────────────────────────────────────

/// A digit of a decimal number, spelled with the letters of one, five and ten
/// of its place.
pub open spec fn decade(d: int, one: char, five: char, ten: char) -> Seq<char> {
    if d == 1 {
        seq![one]
    } else if d == 2 {
        seq![one, one]
    } else if d == 3 {
        seq![one, one, one]
    } else if d == 4 {
        seq![one, five]
    } else if d == 5 {
        seq![five]
    } else if d == 6 {
        seq![five, one]
    } else if d == 7 {
        seq![five, one, one]
    } else if d == 8 {
        seq![five, one, one, one]
    } else if d == 9 {
        seq![one, ten]
    } else {
        Seq::empty()
    }
}

/// Thousands.
pub open spec fn thousands(n: nat) -> Seq<char> {
    Seq::new(n, |i: int| 'm')
}

/// A number as a numeral in small letters.
pub open spec fn numeral(v: nat) -> Seq<char> {
    thousands(v / 1000) + decade(v as int / 100 % 10, 'c', 'd', 'm') + decade(
        v as int / 10 % 10,
        'x',
        'l',
        'c',
    ) + decade(v as int % 10, 'i', 'v', 'x')
}

/// The value of a well-formed numeral: one that spells its own value.
pub open spec fn numeral_value(s: Seq<char>) -> Option<u32> {
    match roman_number(s) {
        Some(v) => if numeral(v as nat) == s {
            Some(v)
        } else {
            None
        },
        None => None,
    }
}

fn push_decade(out: &mut Vec<char>, d: u32, one: char, five: char, ten: char)
    ensures
        final(out)@ == old(out)@ + decade(d as int, one, five, ten),
{
    let ghost before = out@;
    if d == 9 {
        out.push(one);
        out.push(ten);
    } else if d == 4 {
        out.push(one);
        out.push(five);
    } else if d < 9 {
        if d >= 5 {
            out.push(five);
        }
        let ones: u32 = d % 5;
        if ones >= 1 {
            out.push(one);
        }
        if ones >= 2 {
            out.push(one);
        }
        if ones >= 3 {
            out.push(one);
        }
    }
    assert(out@ =~= before + decade(d as int, one, five, ten));
}

/// A number as a numeral in small letters.
pub fn roman_numeral(v: u32) -> (r: Vec<char>)
    ensures
        r@ == numeral(v as nat),
{
    let mut out: Vec<char> = Vec::new();
    let mut k: u32 = 0;
    while k < v / 1000
        invariant
            k <= v / 1000,
            out@ =~= thousands(k as nat),
        decreases v / 1000 - k,
    {
        out.push('m');
        k = k + 1;
    }
    push_decade(&mut out, v / 100 % 10, 'c', 'd', 'm');
    push_decade(&mut out, v / 10 % 10, 'x', 'l', 'c');
    push_decade(&mut out, v % 10, 'i', 'v', 'x');
    out
}

/// The value of a numeral in small letters; none of one that is malformed.
pub fn read_numeral(v: &Vec<char>) -> (r: Option<u32>)
    ensures
        r == numeral_value(v@),
{
    match roman_of(v) {
        None => None,
        Some(n) => if same_chars(&roman_numeral(n), v) {
            Some(n)
        } else {
            None
        },
    }
}

// ── laws ────────────────────────────────────────────────────────────────────

proof fn lemma_sum_front(a: Seq<char>, b: Seq<char>, n: int)
    requires
        0 <= n <= a.len(),
        a.len() > 0 && b.len() > 0 ==> roman_digit(a.last())->0 >= roman_digit(b[0])->0,
    ensures
        roman_sum(a + b, n) == roman_sum(a, n),
    decreases n,
{
    if n > 0 {
        lemma_sum_front(a, b, n - 1);
        assert((a + b)[n - 1] == a[n - 1]);
        if n < a.len() {
            assert((a + b)[n] == a[n]);
        } else if b.len() > 0 {
            assert((a + b)[n] == b[0]);
        }
    }
}

proof fn lemma_sum_back(a: Seq<char>, b: Seq<char>, n: int)
    requires
        0 <= n <= b.len(),
    ensures
        roman_sum(a + b, a.len() + n) == roman_sum(a + b, a.len() as int) + roman_sum(b, n),
    decreases n,
{
    if n > 0 {
        lemma_sum_back(a, b, n - 1);
        assert((a + b)[a.len() + n - 1] == b[n - 1]);
        if n < b.len() {
            assert((a + b)[a.len() + n] == b[n]);
        }
    }
}

/// Roman digits that add up to `total`, the last of them at least `least`.
#[verifier::opaque]
spec fn adds_to(s: Seq<char>, total: int, least: int) -> bool {
    &&& all_roman(s)
    &&& roman_sum(s, s.len() as int) == total
    &&& s.len() > 0 ==> roman_digit(s.last())->0 >= least
    &&& total > 0 ==> s.len() > 0
}

proof fn lemma_join(a: Seq<char>, ta: int, la: int, b: Seq<char>, tb: int, lb: int)
    requires
        adds_to(a, ta, la),
        adds_to(b, tb, lb),
        lb <= la,
        ta >= 0,
        tb >= 0,
        b.len() > 0 ==> roman_digit(b[0])->0 <= la,
    ensures
        adds_to(a + b, ta + tb, lb),
{
    reveal(adds_to);
    let s = a + b;
    lemma_sum_front(a, b, a.len() as int);
    lemma_sum_back(a, b, b.len() as int);
    assert forall|i: int| 0 <= i < s.len() implies roman_digit(#[trigger] s[i]) is Some by {
        if i < a.len() {
            assert(s[i] == a[i]);
        } else {
            assert(s[i] == b[i - a.len()]);
        }
    }
    if b.len() > 0 {
        assert(s.last() == b.last());
    } else {
        assert(s =~= a);
    }
}

proof fn lemma_decade(d: int, one: char, five: char, ten: char, u: int)
    requires
        0 <= d <= 9,
        u > 0,
        roman_digit(one) == Some(u),
        roman_digit(five) == Some(5 * u),
        roman_digit(ten) == Some(10 * u),
    ensures
        adds_to(decade(d, one, five, ten), d * u, u),
        decade(d, one, five, ten).len() > 0 ==> roman_digit(decade(d, one, five, ten)[0])->0 <= 5
            * u,
{
    reveal(adds_to);
    reveal_with_fuel(roman_sum, 5);
    let s = decade(d, one, five, ten);
    assert(d == 1 ==> d * u == u) by (nonlinear_arith);
    assert(d == 2 ==> d * u == u + u) by (nonlinear_arith);
    assert(d == 3 ==> d * u == u + u + u) by (nonlinear_arith);
    assert(d == 4 ==> d * u == 5 * u - u) by (nonlinear_arith);
    assert(d == 5 ==> d * u == 5 * u) by (nonlinear_arith);
    assert(d == 6 ==> d * u == 5 * u + u) by (nonlinear_arith);
    assert(d == 7 ==> d * u == 5 * u + u + u) by (nonlinear_arith);
    assert(d == 8 ==> d * u == 5 * u + u + u + u) by (nonlinear_arith);
    assert(d == 9 ==> d * u == 10 * u - u) by (nonlinear_arith);
    assert(d == 0 ==> d * u == 0) by (nonlinear_arith);
    assert(roman_sum(s, s.len() as int) == d * u);
}

proof fn lemma_thousands(n: nat)
    ensures
        adds_to(thousands(n), 1000 * n as int, 1000),
    decreases n,
{
    reveal(adds_to);
    if n > 0 {
        let a = thousands((n - 1) as nat);
        let b = seq!['m'];
        lemma_thousands((n - 1) as nat);
        assert(roman_sum(b, 1) == roman_sum(b, 0) + roman_term(b, 0));
        lemma_join(a, 1000 * (n - 1), 1000, b, 1000, 1000);
        assert(thousands(n) =~= a + b);
    }
}

/// Digits of at least `u`, followed by those of the place of `u`.
proof fn lemma_place(s: Seq<char>, total: int, d: int, one: char, five: char, ten: char, u: int)
    requires
        adds_to(s, total, 10 * u),
        total >= 0,
        0 <= d <= 9,
        u > 0,
        roman_digit(one) == Some(u),
        roman_digit(five) == Some(5 * u),
        roman_digit(ten) == Some(10 * u),
    ensures
        adds_to(s + decade(d, one, five, ten), total + d * u, u),
{
    lemma_decade(d, one, five, ten, u);
    assert(d * u >= 0) by (nonlinear_arith)
        requires
            d >= 0,
            u > 0,
    ;
    lemma_join(s, total, 10 * u, decade(d, one, five, ten), d * u, u);
}

proof fn lemma_digits(v: nat)
    ensures
        v == 1000 * (v / 1000) + 100 * (v as int / 100 % 10) + 10 * (v as int / 10 % 10) + v as int
            % 10,
{
    let (p, q, r) = (v as int / 10, v as int / 100, v as int / 1000);
    assert(v == 10 * p + v as int % 10);
    assert(p / 10 == q && q / 10 == r);
    assert(p == 10 * q + p % 10);
    assert(q == 10 * r + q % 10);
}

proof fn lemma_places(t: nat, h: int, d: int, e: int)
    requires
        0 <= h <= 9,
        0 <= d <= 9,
        0 <= e <= 9,
    ensures
        adds_to(
            thousands(t) + decade(h, 'c', 'd', 'm') + decade(d, 'x', 'l', 'c') + decade(
                e,
                'i',
                'v',
                'x',
            ),
            1000 * t + 100 * h + 10 * d + e,
            1,
        ),
{
    let a = thousands(t);
    let b = a + decade(h, 'c', 'd', 'm');
    let c = b + decade(d, 'x', 'l', 'c');
    lemma_thousands(t);
    lemma_place(a, 1000 * t as int, h, 'c', 'd', 'm', 100);
    lemma_place(b, 1000 * t + h * 100, d, 'x', 'l', 'c', 10);
    lemma_place(c, 1000 * t + h * 100 + d * 10, e, 'i', 'v', 'x', 1);
}

proof fn lemma_added(s: Seq<char>, v: nat)
    requires
        adds_to(s, v as int, 1),
        0 < v <= u32::MAX,
    ensures
        roman_number(s) == Some(v as u32),
{
    reveal(adds_to);
}

/// A number spelled as a numeral is read as that number.
pub proof fn law_numeral_reads_back(v: nat)
    requires
        0 < v <= u32::MAX,
    ensures
        roman_number(numeral(v)) == Some(v as u32),
        numeral_value(numeral(v)) == Some(v as u32),
{
    lemma_digits(v);
    lemma_places(v / 1000, v as int / 100 % 10, v as int / 10 % 10, v as int % 10);
    lemma_added(numeral(v), v);
}

/// A number has one numeral: two well-formed ones of the same value are the
/// same.
pub proof fn law_one_numeral(a: Seq<char>, b: Seq<char>)
    requires
        numeral_value(a) is Some,
        numeral_value(a) == numeral_value(b),
    ensures
        a == b,
{
}

/// The letters of numerals, from the least up.
pub open spec fn roman_letters() -> Seq<char> {
    seq!['i', 'v', 'x', 'l', 'c', 'd', 'm']
}

/// Each letter is worth five times and twice, by turns, what the one before it
/// is, from one on.
pub proof fn law_letters_grow(k: int)
    requires
        0 <= k < 6,
    ensures
        ({
            let s = roman_letters();
            let a = roman_digit(s[k]);
            let b = roman_digit(s[k + 1]);
            &&& roman_digit(s[0]) == Some(1int)
            &&& a is Some && b is Some
            &&& k % 2 == 0 ==> b->0 == 5 * a->0
            &&& k % 2 == 1 ==> b->0 == 2 * a->0
        }),
{
}

/// A letter two places up among the letters.
pub open spec fn tenfold(c: char) -> char {
    if c == 'i' {
        'x'
    } else if c == 'v' {
        'l'
    } else if c == 'x' {
        'c'
    } else if c == 'l' {
        'd'
    } else {
        'm'
    }
}

/// Numerals are written place by place: tens are written as ones are, with each
/// letter two places up, and so are hundreds after tens; what a number has more
/// than its tens is written behind them; and each thousand is one letter more in
/// front.
pub proof fn law_numerals_are_written_by_place(n: nat, d: nat)
    requires
        d < 10,
    ensures
        n < 10 ==> numeral(10 * n) == numeral(n).map_values(|c: char| tenfold(c)),
        n < 10 ==> numeral(100 * n) == numeral(10 * n).map_values(|c: char| tenfold(c)),
        numeral(10 * n + d) == numeral(10 * n) + numeral(d),
        numeral(n + 1000) == seq!['m'] + numeral(n),
{
    if n < 10 {
        lemma_tens(n);
    }
    lemma_ones(n, d);
    lemma_thousand(n);
}

#[verifier::spinoff_prover]
#[verifier::rlimit(60)]
proof fn lemma_tens(n: nat)
    requires
        n < 10,
    ensures
        numeral(10 * n) == numeral(n).map_values(|c: char| tenfold(c)),
        numeral(100 * n) == numeral(10 * n).map_values(|c: char| tenfold(c)),
{
    let up = |c: char| tenfold(c);
    let a = n as int;
    let none = Seq::<char>::empty();
    let i = decade(a, 'i', 'v', 'x');
    let x = decade(a, 'x', 'l', 'c');
    let c = decade(a, 'c', 'd', 'm');
    assert(thousands(0) =~= none);
    assert(n / 1000 == 0 && a / 100 % 10 == 0 && a / 10 % 10 == 0 && a % 10 == a);
    let t = 10 * n;
    assert(t / 1000 == 0 && t as int / 100 % 10 == 0 && t as int / 10 % 10 == a && t as int % 10
        == 0);
    let h = 100 * n;
    assert(h / 1000 == 0 && h as int / 100 % 10 == a && h as int / 10 % 10 == 0 && h as int % 10
        == 0);
    assert(numeral(n) == none + none + none + i);
    assert(numeral(t) == none + none + x + none);
    assert(numeral(h) == none + c + none + none);
    assert(none + none + none + i =~= i);
    assert(none + none + x + none =~= x);
    assert(none + c + none + none =~= c);
    lemma_decade_up(a);
}

proof fn lemma_decade_up(a: int)
    requires
        0 <= a < 10,
    ensures
        decade(a, 'x', 'l', 'c') == decade(a, 'i', 'v', 'x').map_values(|c: char| tenfold(c)),
        decade(a, 'c', 'd', 'm') == decade(a, 'x', 'l', 'c').map_values(|c: char| tenfold(c)),
{
    let up = |c: char| tenfold(c);
    assert(decade(a, 'x', 'l', 'c') =~= decade(a, 'i', 'v', 'x').map_values(up));
    assert(decade(a, 'c', 'd', 'm') =~= decade(a, 'x', 'l', 'c').map_values(up));
}

/// The numeral of the digits of a number.
#[verifier::opaque]
spec fn spelled(m: nat, h: int, t: int, o: int) -> Seq<char> {
    thousands(m) + decade(h, 'c', 'd', 'm') + decade(t, 'x', 'l', 'c') + decade(o, 'i', 'v', 'x')
}

proof fn lemma_spelled(v: nat)
    ensures
        numeral(v) == spelled(v / 1000, v as int / 100 % 10, v as int / 10 % 10, v as int % 10),
{
    reveal(spelled);
}

proof fn lemma_spelled_ones(m: nat, h: int, t: int, o: int)
    ensures
        spelled(m, h, t, o) == spelled(m, h, t, 0) + spelled(0, 0, 0, o),
{
    reveal(spelled);
    let none = Seq::<char>::empty();
    assert(thousands(0) =~= none);
    assert(decade(0, 'c', 'd', 'm') == none);
    assert(decade(0, 'x', 'l', 'c') == none);
    assert(decade(0, 'i', 'v', 'x') == none);
    lemma_parts_join(
        thousands(m),
        decade(h, 'c', 'd', 'm'),
        decade(t, 'x', 'l', 'c'),
        decade(o, 'i', 'v', 'x'),
    );
}

proof fn lemma_spelled_thousand(m: nat, h: int, t: int, o: int)
    ensures
        spelled(m + 1, h, t, o) == seq!['m'] + spelled(m, h, t, o),
{
    reveal(spelled);
    lemma_one_more(m);
    lemma_front(
        seq!['m'],
        thousands(m),
        decade(h, 'c', 'd', 'm'),
        decade(t, 'x', 'l', 'c'),
        decade(o, 'i', 'v', 'x'),
    );
}

proof fn lemma_ones_digits(n: nat, d: nat)
    requires
        d < 10,
    ensures
        (10 * n + d) / 1000 == (10 * n) / 1000,
        (10 * n + d) as int / 100 == (10 * n) as int / 100,
        (10 * n + d) as int / 10 == n,
        (10 * n) as int / 10 == n,
        (10 * n) as int % 10 == 0,
        (10 * n + d) as int % 10 == d,
        d / 1000 == 0,
        d as int / 100 % 10 == 0,
        d as int / 10 % 10 == 0,
        d as int % 10 == d,
{
}

proof fn lemma_ones(n: nat, d: nat)
    requires
        d < 10,
    ensures
        numeral(10 * n + d) == numeral(10 * n) + numeral(d),
{
    let t = 10 * n;
    lemma_ones_digits(n, d);
    lemma_spelled(t);
    lemma_spelled(t + d);
    lemma_spelled(d);
    lemma_spelled_ones(t / 1000, t as int / 100 % 10, t as int / 10 % 10, d as int);
}

proof fn lemma_parts_join(m: Seq<char>, c: Seq<char>, x: Seq<char>, i: Seq<char>)
    ensures
        ({
            let none = Seq::<char>::empty();
            m + c + x + i == (m + c + x + none) + (none + none + none + i)
        }),
{
    let none = Seq::<char>::empty();
    assert(m + c + x + i =~= (m + c + x + none) + (none + none + none + i));
}

proof fn lemma_thousand_digits(n: nat)
    ensures
        (n + 1000) / 1000 == n / 1000 + 1,
        (n + 1000) as int / 100 % 10 == n as int / 100 % 10,
        (n + 1000) as int / 10 % 10 == n as int / 10 % 10,
        (n + 1000) as int % 10 == n as int % 10,
{
    let v = n as int;
    assert((v + 1000) / 1000 == v / 1000 + 1);
    assert((v + 1000) / 100 == v / 100 + 10);
    assert((v / 100 + 10) % 10 == v / 100 % 10);
    assert((v + 1000) / 10 == v / 10 + 100);
    assert((v / 10 + 100) % 10 == v / 10 % 10);
    assert((v + 1000) % 10 == v % 10);
}

proof fn lemma_thousand(n: nat)
    ensures
        numeral(n + 1000) == seq!['m'] + numeral(n),
{
    lemma_thousand_digits(n);
    lemma_spelled(n);
    lemma_spelled(n + 1000);
    lemma_spelled_thousand(
        n / 1000,
        n as int / 100 % 10,
        n as int / 10 % 10,
        n as int % 10,
    );
}

proof fn lemma_front(one: Seq<char>, m: Seq<char>, c: Seq<char>, x: Seq<char>, i: Seq<char>)
    ensures
        one + m + c + x + i == one + (m + c + x + i),
{
    assert(one + m + c + x + i =~= one + (m + c + x + i));
}

proof fn lemma_one_more(n: nat)
    ensures
        thousands(n + 1) == seq!['m'] + thousands(n),
{
    assert(thousands(n + 1) =~= seq!['m'] + thousands(n));
}

} // verus!
