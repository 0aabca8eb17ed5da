//! Text primitives: comparison, trimming, numerals.
//!
//! Every function is stated over the sequence of characters of its arguments.
use vstd::prelude::*;

verus! {

/// `String::push` appends the given character to the end of the string.
pub assume_specification[ String::push ](s: &mut String, c: char)
    ensures
        final(s)@ == old(s)@.push(c),
;

/// The characters of `s`, in order.
pub fn to_chars(s: &str) -> (r: Vec<char>)
    ensures
        r@ == s@,
{
    let mut r: Vec<char> = Vec::new();
    for c in it: s.chars()
        invariant
            r@ == it.seq().take(it.index() as int),
            it.seq() == s@,
    {
        r.push(c);
    }
    r
}

/// The string made of the characters `v[from..to]`.
pub fn from_chars(v: &Vec<char>, from: usize, to: usize) -> (r: String)
    requires
        from <= to <= v.len(),
    ensures
        r@ == v@.subrange(from as int, to as int),
{
    let mut r = String::new();
    for i in from..to
        invariant
            from <= to <= v.len(),
            r@ == v@.subrange(from as int, i as int),
    {
        r.push(v[i]);
        assert(v@.subrange(from as int, i + 1) =~= v@.subrange(from as int, i as int).push(v@[i as int]));
    }
    r
}

/// Whether two strings hold the same characters.
pub fn same_text(a: &str, b: &str) -> (r: bool)
    ensures
        r == (a@ == b@),
{
    let x = to_chars(a);
    let y = to_chars(b);
    if x.len() != y.len() {
        return false;
    }
    for i in 0..x.len()
        invariant
            x@ == a@,
            y@ == b@,
            x.len() == y.len(),
            forall|j: int| 0 <= j < i ==> x@[j] == y@[j],
    {
        if x[i] != y[i] {
            return false;
        }
    }
    assert(a@ =~= b@);
    true
}

/// An ASCII capital in lower case; every other character as it is.
pub open spec fn lower(c: char) -> char {
    if 'A' <= c && c <= 'Z' {
        ((c as u32 + 32) as u32) as char
    } else {
        c
    }
}

/// `s` with every ASCII capital in lower case.
pub open spec fn lowered(s: Seq<char>) -> Seq<char> {
    s.map_values(|c: char| lower(c))
}

/// [`lower`], as code.
pub fn ascii_lower(c: char) -> (r: char)
    ensures
        r == lower(c),
{
    if 'A' <= c && c <= 'Z' {
        ((c as u8) + 32u8) as char
    } else {
        c
    }
}

/// Whether `s` ends in `suffix`, ASCII case aside.
pub open spec fn ends_with_any_case(s: Seq<char>, suffix: Seq<char>) -> bool {
    &&& suffix.len() <= s.len()
    &&& lowered(s.subrange(s.len() - suffix.len(), s.len() as int)) == lowered(suffix)
}

/// [`ends_with_any_case`], as code.
pub fn ends_with_ignore_case(s: &str, suffix: &str) -> (r: bool)
    ensures
        r == ends_with_any_case(s@, suffix@),
{
    let x = to_chars(s);
    let y = to_chars(suffix);
    if y.len() > x.len() {
        return false;
    }
    let d: usize = x.len() - y.len();
    let ghost tail = s@.subrange(d as int, s@.len() as int);
    for i in 0..y.len()
        invariant
            x@ == s@,
            y@ == suffix@,
            d + y.len() == x.len(),
            tail == s@.subrange(d as int, s@.len() as int),
            forall|j: int| 0 <= j < i ==> lower(tail[j]) == lower(#[trigger] y@[j]),
    {
        assert(tail[i as int] == x@[d + i]);
        if ascii_lower(x[d + i]) != ascii_lower(y[i]) {
            assert(lowered(tail)[i as int] != lowered(suffix@)[i as int]);
            return false;
        }
    }
    assert(lowered(tail) =~= lowered(suffix@));
    true
}

/// Whether two strings are equal, ASCII case aside.
pub fn eq_ignore_ascii_case(a: &str, b: &str) -> (r: bool)
    ensures
        r == (lowered(a@) == lowered(b@)),
{
    let x = to_chars(a);
    let y = to_chars(b);
    if x.len() != y.len() {
        assert(lowered(a@).len() != lowered(b@).len());
        return false;
    }
    for i in 0..y.len()
        invariant
            x@ == a@,
            y@ == b@,
            x.len() == y.len(),
            forall|j: int| 0 <= j < i ==> lower(x@[j]) == lower(#[trigger] y@[j]),
    {
        if ascii_lower(x[i]) != ascii_lower(y[i]) {
            assert(lowered(a@)[i as int] != lowered(b@)[i as int]);
            return false;
        }
    }
    assert(lowered(a@) =~= lowered(b@));
    true
}

/// The characters with the Unicode property `White_Space`.
pub open spec fn is_white(c: char) -> bool {
    ||| '\u{9}' <= c && c <= '\u{D}'
    ||| c == ' '
    ||| c == '\u{85}'
    ||| c == '\u{A0}'
    ||| c == '\u{1680}'
    ||| '\u{2000}' <= c && c <= '\u{200A}'
    ||| c == '\u{2028}'
    ||| c == '\u{2029}'
    ||| c == '\u{202F}'
    ||| c == '\u{205F}'
    ||| c == '\u{3000}'
}

/// [`is_white`], as code.
pub fn is_whitespace(c: char) -> (r: bool)
    ensures
        r == is_white(c),
{
    ('\u{9}' <= c && c <= '\u{D}') || c == ' ' || c == '\u{85}' || c == '\u{A0}' || c == '\u{1680}'
        || ('\u{2000}' <= c && c <= '\u{200A}') || c == '\u{2028}' || c == '\u{2029}' || c
        == '\u{202F}' || c == '\u{205F}' || c == '\u{3000}'
}

/// `r` is `s` without the white space at its two ends.
pub open spec fn is_trimmed(s: Seq<char>, r: Seq<char>) -> bool {
    exists|a: int, b: int| #![trigger s.subrange(a, b)]
        {
            &&& 0 <= a <= b <= s.len()
            &&& r == s.subrange(a, b)
            &&& forall|i: int| 0 <= i < a ==> is_white(#[trigger] s[i])
            &&& forall|i: int| b <= i < s.len() ==> is_white(#[trigger] s[i])
            &&& a < b ==> !is_white(s[a]) && !is_white(s[b - 1])
        }
}

/// A string has one trimmed form.
pub proof fn lemma_trimmed_unique(s: Seq<char>, r1: Seq<char>, r2: Seq<char>)
    requires
        is_trimmed(s, r1),
        is_trimmed(s, r2),
    ensures
        r1 == r2,
{
    let (a1, b1) = choose|a: int, b: int| #![trigger s.subrange(a, b)]
        {
            &&& 0 <= a <= b <= s.len()
            &&& r1 == s.subrange(a, b)
            &&& forall|i: int| 0 <= i < a ==> is_white(#[trigger] s[i])
            &&& forall|i: int| b <= i < s.len() ==> is_white(#[trigger] s[i])
            &&& a < b ==> !is_white(s[a]) && !is_white(s[b - 1])
        };
    let (a2, b2) = choose|a: int, b: int| #![trigger s.subrange(a, b)]
        {
            &&& 0 <= a <= b <= s.len()
            &&& r2 == s.subrange(a, b)
            &&& forall|i: int| 0 <= i < a ==> is_white(#[trigger] s[i])
            &&& forall|i: int| b <= i < s.len() ==> is_white(#[trigger] s[i])
            &&& a < b ==> !is_white(s[a]) && !is_white(s[b - 1])
        };
    if a1 < b1 {
        assert(!is_white(s[a1]));
        assert(!is_white(s[b1 - 1]));
    }
    if a2 < b2 {
        assert(!is_white(s[a2]));
        assert(!is_white(s[b2 - 1]));
    }
    if a1 == b1 || a2 == b2 {
        assert(r1 =~= r2);
    } else {
        assert(a1 == a2 && b1 == b2);
    }
}

/// `s` without leading and trailing white space.
pub fn trim(s: &str) -> (r: String)
    ensures
        is_trimmed(s@, r@),
{
    let v = to_chars(s);
    let mut a: usize = 0;
    while a < v.len() && is_whitespace(v[a])
        invariant
            v@ == s@,
            a <= v.len(),
            forall|i: int| 0 <= i < a ==> is_white(#[trigger] s@[i]),
        decreases v.len() - a,
    {
        a = a + 1;
    }
    let mut b: usize = v.len();
    while a < b && is_whitespace(v[b - 1])
        invariant
            v@ == s@,
            a <= b <= v.len(),
            a < v.len() ==> !is_white(s@[a as int]),
            forall|i: int| b <= i < v.len() ==> is_white(#[trigger] s@[i]),
        decreases b,
    {
        b = b - 1;
    }
    let r = from_chars(&v, a, b);
    assert(is_trimmed(s@, r@)) by {
        assert(r@ == s@.subrange(a as int, b as int));
    }
    r
}

/// The digit character for `d`, capitals from ten on.
pub open spec fn digit(d: int) -> char {
    if 0 <= d < 10 {
        ((48 + d) as u32) as char
    } else {
        ((55 + d) as u32) as char
    }
}

/// The numeral of `n` in base `base`, without leading zeros.
pub open spec fn numeral(n: nat, base: nat) -> Seq<char>
    decreases n,
{
    if base < 2 {
        Seq::empty()
    } else if n < base {
        seq![digit(n as int)]
    } else {
        proof {
            assert(n / base < n) by (nonlinear_arith)
                requires
                    n >= base,
                    base >= 2,
            ;
        }
        numeral(n / base, base).push(digit((n % base) as int))
    }
}

/// The decimal numeral of `n`.
pub open spec fn decimal(n: nat) -> Seq<char> {
    numeral(n, 10)
}

/// The decimal numeral of an integer, with a minus sign where it is negative.
pub open spec fn signed_decimal(n: int) -> Seq<char> {
    if n < 0 {
        seq!['-'] + decimal((-n) as nat)
    } else {
        decimal(n as nat)
    }
}

fn digit_char(d: u8) -> (c: char)
    requires
        d < 16,
    ensures
        c == digit(d as int),
{
    if d < 10 {
        (48u8 + d) as char
    } else {
        (55u8 + d) as char
    }
}

fn push_numeral(s: &mut String, n: u64, base: u64)
    requires
        2 <= base <= 16,
    ensures
        final(s)@ == old(s)@ + numeral(n as nat, base as nat),
    decreases n,
{
    if n < base {
        s.push(digit_char(n as u8));
        assert(old(s)@.push(digit(n as int)) =~= old(s)@ + seq![digit(n as int)]);
    } else {
        assert(n / base < n) by (nonlinear_arith)
            requires
                n >= base,
                base >= 2,
        ;
        push_numeral(s, n / base, base);
        s.push(digit_char((n % base) as u8));
        assert((old(s)@ + numeral((n / base) as nat, base as nat)).push(digit((n % base) as int))
            =~= old(s)@ + numeral((n / base) as nat, base as nat).push(digit((n % base) as int)));
    }
}

/// Appends the decimal numeral of `n`.
pub fn push_decimal(s: &mut String, n: u64)
    ensures
        final(s)@ == old(s)@ + decimal(n as nat),
{
    push_numeral(s, n, 10);
}

/// Appends the decimal numeral of `n`, with its sign.
pub fn push_signed(s: &mut String, n: i64)
    ensures
        final(s)@ == old(s)@ + signed_decimal(n as int),
{
    if n < 0 {
        let m: u64 = if n == i64::MIN {
            0x8000_0000_0000_0000
        } else {
            (-n) as u64
        };
        s.push('-');
        push_decimal(s, m);
        assert(old(s)@.push('-') + decimal(m as nat) =~= old(s)@ + (seq!['-'] + decimal(m as nat)));
    } else {
        push_decimal(s, n as u64);
    }
}

/// `0x` and the hexadecimal numeral of `n` in capitals, padded with zeros to at
/// least `width` digits.
pub open spec fn hex(n: nat, width: nat) -> Seq<char> {
    let d = numeral(n, 16);
    let pad = if d.len() < width {
        (width - d.len()) as nat
    } else {
        0
    };
    seq!['0', 'x'] + Seq::new(pad, |i: int| '0') + d
}

/// [`hex`], as code.
pub fn hex_text(n: u64, width: usize) -> (r: String)
    ensures
        r@ == hex(n as nat, width as nat),
{
    let mut d = String::new();
    push_numeral(&mut d, n, 16);
    let digits = to_chars(d.as_str());
    let mut r = String::new();
    r.push('0');
    r.push('x');
    let pad: usize = if digits.len() < width {
        width - digits.len()
    } else {
        0
    };
    for i in 0..pad
        invariant
            r@ == seq!['0', 'x'] + Seq::new(i as nat, |j: int| '0'),
    {
        r.push('0');
        assert(Seq::new((i + 1) as nat, |j: int| '0') =~= Seq::new(i as nat, |j: int| '0').push('0'));
    }
    r.append(d.as_str());
    assert(Seq::<char>::empty() + numeral(n as nat, 16) =~= numeral(n as nat, 16));
    r
}

/// Whether text `a` comes before text `b`, by its characters from place `i` on.
pub open spec fn precedes(a: Seq<char>, b: Seq<char>, i: int) -> bool
    decreases b.len() - i,
{
    if i >= b.len() {
        false
    } else if i >= a.len() {
        true
    } else if a[i] != b[i] {
        (a[i] as int) < (b[i] as int)
    } else {
        precedes(a, b, i + 1)
    }
}

/// A text does not come before itself.
pub proof fn lemma_precedes_irreflexive(a: Seq<char>, i: int)
    requires
        0 <= i,
    ensures
        !precedes(a, a, i),
    decreases a.len() - i,
{
    if i < a.len() {
        lemma_precedes_irreflexive(a, i + 1);
    }
}

/// What comes before a text that comes before another comes before that one.
pub proof fn lemma_precedes_transitive(a: Seq<char>, b: Seq<char>, c: Seq<char>, i: int)
    requires
        0 <= i,
        precedes(a, b, i),
        precedes(b, c, i),
    ensures
        precedes(a, c, i),
    decreases c.len() - i,
{
    if i < a.len() && i < b.len() && i < c.len() && a[i] == b[i] && b[i] == c[i] {
        lemma_precedes_transitive(a, b, c, i + 1);
    }
}

/// Of two texts of which neither comes before the other, the characters are the same.
pub proof fn lemma_precedes_total(a: Seq<char>, b: Seq<char>, i: int)
    requires
        0 <= i <= a.len(),
        i <= b.len(),
        !precedes(a, b, i),
        !precedes(b, a, i),
        forall|k: int| 0 <= k < i ==> #[trigger] a[k] == b[k],
    ensures
        a == b,
    decreases a.len() - i,
{
    if i < a.len() && i < b.len() {
        assert(a[i] == b[i]);
        lemma_precedes_total(a, b, i + 1);
    } else {
        assert(a =~= b);
    }
}

/// Whether a character has the lower number.
fn is_below(x: char, y: char) -> (r: bool)
    ensures
        r == ((x as int) < (y as int)),
{
    (x as u32) < (y as u32)
}

/// Whether text `a` comes before text `b`.
pub fn comes_before(a: &Vec<char>, b: &Vec<char>) -> (r: bool)
    ensures
        r == precedes(a@, b@, 0),
{
    let mut i: usize = 0;
    while i < a.len() && i < b.len() && a[i] == b[i]
        invariant
            i <= a@.len(),
            i <= b@.len(),
            precedes(a@, b@, 0) == precedes(a@, b@, i as int),
        decreases a.len() - i,
    {
        i = i + 1;
    }
    if i >= b.len() {
        false
    } else if i >= a.len() {
        true
    } else {
        is_below(a[i], b[i])
    }
}

/// What a digit stands for, capitals from ten on.
pub open spec fn digit_worth(c: char) -> int {
    if '0' <= c && c <= '9' {
        c as int - '0' as int
    } else {
        c as int - 'A' as int + 10
    }
}

/// What a row of digits stands for.
pub open spec fn worth(s: Seq<char>, base: int) -> int
    decreases s.len(),
{
    if s.len() == 0 {
        0
    } else {
        worth(s.drop_last(), base) * base + digit_worth(s.last())
    }
}

/// Whether a character is a digit under `base`.
pub open spec fn is_digit_under(c: char, base: int) -> bool {
    (('0' <= c && c <= '9') || ('A' <= c && c <= 'F')) && digit_worth(c) < base
}

proof fn lemma_digit(d: int)
    requires
        0 <= d < 16,
    ensures
        is_digit_under(digit(d), 16),
        digit_worth(digit(d)) == d,
        digit(d) == '0' ==> d == 0,
{
}

/// A numeral reads back as the number, digit by digit, and has no nought before it.
pub proof fn law_numeral_reads_back(n: nat, base: nat)
    requires
        2 <= base <= 16,
    ensures
        worth(numeral(n, base), base as int) == n,
        numeral(n, base).len() > 0,
        numeral(n, base).len() > 1 ==> numeral(n, base)[0] != '0',
        n > 0 ==> numeral(n, base)[0] != '0',
        forall|i: int|
            0 <= i < numeral(n, base).len() ==> is_digit_under(
                #[trigger] numeral(n, base)[i],
                base as int,
            ),
    decreases n,
{
    let s = numeral(n, base);
    if n < base {
        lemma_digit(n as int);
        assert(s.drop_last() =~= Seq::empty());
        assert(worth(s.drop_last(), base as int) == 0);
        assert(0 * base == 0) by (nonlinear_arith);
    } else {
        assert(0 < n / base < n && (n / base) * base + n % base == n && n % base < base)
            by (nonlinear_arith)
            requires
                n >= base,
                base >= 2,
        ;
        law_numeral_reads_back(n / base, base);
        lemma_digit((n % base) as int);
        assert(s.drop_last() =~= numeral(n / base, base));
    }
}

/// A number is written in decimal digits, with a sign where it is negative.
pub proof fn law_decimal_reads_back(n: int)
    ensures
        n >= 0 ==> {
            &&& worth(decimal(n as nat), 10) == n
            &&& signed_decimal(n) == decimal(n as nat)
            &&& forall|i: int|
                0 <= i < decimal(n as nat).len() ==> '0' <= #[trigger] decimal(n as nat)[i]
                    && decimal(n as nat)[i] <= '9'
            &&& decimal(n as nat).len() > 1 ==> decimal(n as nat)[0] != '0'
        },
        n < 0 ==> signed_decimal(n)[0] == '-' && worth(signed_decimal(n).skip(1), 10) == -n,
{
    if n >= 0 {
        law_numeral_reads_back(n as nat, 10);
    } else {
        law_numeral_reads_back((-n) as nat, 10);
        assert(signed_decimal(n).skip(1) =~= decimal((-n) as nat));
    }
}

proof fn lemma_padded(pad: nat, d: Seq<char>)
    ensures
        worth(Seq::new(pad, |i: int| '0') + d, 16) == worth(d, 16),
    decreases pad + d.len(),
{
    let z = Seq::new(pad, |i: int| '0');
    let s = z + d;
    if d.len() > 0 {
        lemma_padded(pad, d.drop_last());
        assert(s.drop_last() =~= z + d.drop_last());
    } else if pad > 0 {
        lemma_padded((pad - 1) as nat, d);
        assert(s.drop_last() =~= Seq::new((pad - 1) as nat, |i: int| '0') + d);
        assert(worth(d, 16) == 0);
    } else {
        assert(s =~= d);
    }
}

/// A number is written in hexadecimal digits behind `0x`: as many as asked for, and more only
/// where it needs them.
pub proof fn law_hex_reads_back(n: nat, width: nat)
    ensures
        hex(n, width).len() >= 2 + width,
        hex(n, width)[0] == '0',
        hex(n, width)[1] == 'x',
        worth(hex(n, width).skip(2), 16) == n,
        hex(n, width).len() > 2 + width && hex(n, width).len() > 3 ==> hex(n, width)[2] != '0',
        forall|i: int|
            2 <= i < hex(n, width).len() ==> is_digit_under(#[trigger] hex(n, width)[i], 16),
{
    let d = numeral(n, 16);
    let pad = if d.len() < width {
        (width - d.len()) as nat
    } else {
        0
    };
    law_numeral_reads_back(n, 16);
    lemma_padded(pad, d);
    assert(hex(n, width).skip(2) =~= Seq::new(pad, |i: int| '0') + d);
    if d.len() >= width {
        assert(hex(n, width)[2] == d[0]);
    }
}

/// Letters are compared without regard to case: a capital counts as the small letter thirty-two
/// places behind it, any other character as itself.
pub proof fn law_case_is_ignored(c: char, s: Seq<char>, t: Seq<char>)
    ensures
        'A' <= c && c <= 'Z' ==> lower(c) as int == c as int + 32,
        !('A' <= c && c <= 'Z') ==> lower(c) == c,
        lowered(s) == lowered(t) <==> s.len() == t.len() && forall|i: int|
            0 <= i < s.len() ==> lower(#[trigger] s[i]) == lower(t[i]),
        ends_with_any_case(s, t) <==> t.len() <= s.len() && forall|i: int|
            0 <= i < t.len() ==> lower(s[s.len() - t.len() + i]) == lower(#[trigger] t[i]),
{
    if lowered(s) == lowered(t) {
        assert(lowered(s).len() == lowered(t).len());
        assert forall|i: int| 0 <= i < s.len() implies lower(#[trigger] s[i]) == lower(t[i]) by {
            assert(lowered(s)[i] == lowered(t)[i]);
        }
    }
    if s.len() == t.len() && forall|i: int|
        0 <= i < s.len() ==> lower(#[trigger] s[i]) == lower(t[i]) {
        assert(lowered(s) =~= lowered(t));
    }
    if t.len() <= s.len() {
        let e = s.subrange(s.len() - t.len(), s.len() as int);
        if ends_with_any_case(s, t) {
            assert forall|i: int| 0 <= i < t.len() implies lower(s[s.len() - t.len() + i]) == lower(
                #[trigger] t[i],
            ) by {
                assert(lowered(e)[i] == lowered(t)[i]);
            }
        }
        if forall|i: int|
            0 <= i < t.len() ==> lower(s[s.len() - t.len() + i]) == lower(#[trigger] t[i]) {
            assert forall|i: int| 0 <= i < t.len() implies lowered(e)[i] == lowered(t)[i] by {
                assert(lower(s[s.len() - t.len() + i]) == lower(t[i]));
            }
            assert(lowered(e) =~= lowered(t));
        }
    }
}

/// White space is what Unicode says it is, by the numbers of the characters. No visible ASCII
/// character is; the blank, the tab and the line ends are.
pub proof fn law_white_space(c: char)
    ensures
        is_white(c) <==> {
            let n = c as int;
            ||| 9 <= n <= 13
            ||| n == 32 || n == 133 || n == 160 || n == 5760
            ||| 8192 <= n <= 8202
            ||| n == 8232 || n == 8233 || n == 8239 || n == 8287 || n == 12288
        },
        '!' <= c && c <= '~' ==> !is_white(c),
        c == ' ' || c == '\t' || c == '\n' || c == '\r' ==> is_white(c),
{
}

proof fn lemma_precedes(a: Seq<char>, b: Seq<char>, i: int)
    requires
        0 <= i <= a.len(),
        i <= b.len(),
        forall|j: int| 0 <= j < i ==> #[trigger] a[j] == b[j],
    ensures
        precedes(a, b, i) <==> exists|k: int| #[trigger] splits(a, b, k),
    decreases b.len() - i,
{
    if i < b.len() && i < a.len() && a[i] == b[i] {
        lemma_precedes(a, b, i + 1);
    } else {
        if i < b.len() && (i >= a.len() || (a[i] as int) < (b[i] as int)) {
            assert(splits(a, b, i));
        }
        assert forall|k: int| #[trigger] splits(a, b, k) implies precedes(a, b, i) by {
            if k < i {
                assert(a[k] == b[k]);
            } else if k > i {
                assert(a[i] == b[i]);
            }
        }
    }
}

/// Whether two texts are the same up to place `k`, and there the first has ended or has the
/// lesser character.
pub open spec fn splits(a: Seq<char>, b: Seq<char>, k: int) -> bool {
    &&& 0 <= k < b.len()
    &&& k <= a.len()
    &&& forall|j: int| 0 <= j < k ==> #[trigger] a[j] == b[j]
    &&& k < a.len() ==> (a[k] as int) < (b[k] as int)
}

/// Texts come in the order of a dictionary: one is before another where it is the beginning of
/// it, or has the lesser character at the first place at which they differ.
pub proof fn law_dictionary_order(a: Seq<char>, b: Seq<char>)
    ensures
        precedes(a, b, 0) <==> exists|k: int| #[trigger] splits(a, b, k),
{
    lemma_precedes(a, b, 0);
}

} // verus!
