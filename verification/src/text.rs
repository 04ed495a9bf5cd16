//! Text as the rest of the crate needs it: decimal numbers, the first line of a
//! small file, substring search, and the byte order of strings.
use vstd::prelude::*;
use vstd::utf8::encode_utf8;
use vstd::utf8::encode_utf8_decode_utf8;

verus! {

/// The decimal digit `d`, for `d` below ten.
pub open spec fn digit_char(d: nat) -> char {
    if d == 0 {
        '0'
    } else if d == 1 {
        '1'
    } else if d == 2 {
        '2'
    } else if d == 3 {
        '3'
    } else if d == 4 {
        '4'
    } else if d == 5 {
        '5'
    } else if d == 6 {
        '6'
    } else if d == 7 {
        '7'
    } else if d == 8 {
        '8'
    } else {
        '9'
    }
}

/// `n` in decimal, without leading zeros.
pub open spec fn decimal(n: nat) -> Seq<char>
    decreases n,
{
    if n < 10 {
        seq![digit_char(n)]
    } else {
        decimal(n / 10).push(digit_char(n % 10))
    }
}

/// `count` zeros.
pub open spec fn zeros(count: nat) -> Seq<char> {
    Seq::new(count, |i: int| '0')
}

/// `n` in decimal, filled up with leading zeros to at least `width` digits.
pub open spec fn padded_decimal(n: nat, width: nat) -> Seq<char> {
    if decimal(n).len() < width {
        zeros((width - decimal(n).len()) as nat) + decimal(n)
    } else {
        decimal(n)
    }
}

pub open spec fn is_digit(c: char) -> bool {
    48 <= c as u32 <= 57
}

pub open spec fn all_digits(s: Seq<char>) -> bool {
    forall|i: int| 0 <= i < s.len() ==> is_digit(#[trigger] s[i])
}

/// What a row of decimal digits stands for.
pub open spec fn digits_value(s: Seq<char>) -> nat
    decreases s.len(),
{
    if s.len() == 0 {
        0
    } else {
        10 * digits_value(s.drop_last()) + (s.last() as u32 - 48) as nat
    }
}

/// `s` without one leading plus sign.
pub open spec fn without_plus(s: Seq<char>) -> Seq<char> {
    if s.len() > 0 && s[0] == '+' {
        s.skip(1)
    } else {
        s
    }
}

/// The unsigned number that `s` spells: an optional plus sign, then one or more
/// decimal digits, with a value of at most `max`.
pub open spec fn parse_unsigned(s: Seq<char>, max: nat) -> Option<nat> {
    let t = without_plus(s);
    if t.len() > 0 && all_digits(t) && digits_value(t) <= max {
        Some(digits_value(t))
    } else {
        None
    }
}

/// The code points with the Unicode property White_Space.
pub open spec fn is_white_space(c: char) -> bool {
    let u = c as u32;
    ||| 0x9 <= u <= 0xD
    ||| u == 0x20
    ||| u == 0x85
    ||| u == 0xA0
    ||| u == 0x1680
    ||| 0x2000 <= u <= 0x200A
    ||| u == 0x2028
    ||| u == 0x2029
    ||| u == 0x202F
    ||| u == 0x205F
    ||| u == 0x3000
}

pub open spec fn trim_start(s: Seq<char>) -> Seq<char>
    decreases s.len(),
{
    if s.len() > 0 && is_white_space(s[0]) {
        trim_start(s.drop_first())
    } else {
        s
    }
}

pub open spec fn trim_end(s: Seq<char>) -> Seq<char>
    decreases s.len(),
{
    if s.len() > 0 && is_white_space(s.last()) {
        trim_end(s.drop_last())
    } else {
        s
    }
}

/// `s` without the white space around it.
pub open spec fn trim(s: Seq<char>) -> Seq<char> {
    trim_end(trim_start(s))
}

/// What stands before the first line feed, or all of `s` if it has none.
pub open spec fn first_line(s: Seq<char>) -> Seq<char>
    decreases s.len(),
{
    if s.len() == 0 || s[0] == '\n' {
        Seq::empty()
    } else {
        seq![s[0]] + first_line(s.drop_first())
    }
}

/// `p` stands in `s`, at some place.
pub open spec fn contains_text(s: Seq<char>, p: Seq<char>) -> bool {
    exists|i: int| 0 <= i && i + p.len() <= s.len() && #[trigger] s.subrange(i, i + p.len()) == p
}

/// The lexicographic order of byte strings.
pub open spec fn bytes_lt(a: Seq<u8>, b: Seq<u8>) -> bool
    decreases a.len(),
{
    if b.len() == 0 {
        false
    } else if a.len() == 0 {
        true
    } else if a[0] != b[0] {
        a[0] < b[0]
    } else {
        bytes_lt(a.drop_first(), b.drop_first())
    }
}

/// The order of strings: that of their UTF-8 bytes.
pub open spec fn text_lt(a: Seq<char>, b: Seq<char>) -> bool {
    bytes_lt(encode_utf8(a), encode_utf8(b))
}

pub proof fn lemma_digit_char(d: nat)
    requires
        d < 10,
    ensures
        digit_char(d) as u32 == 48 + d,
        is_digit(digit_char(d)),
{
}

/// A number in decimal has only digits, at least one, and they stand for it.
pub proof fn lemma_decimal(n: nat)
    ensures
        decimal(n).len() > 0,
        all_digits(decimal(n)),
        digits_value(decimal(n)) == n,
    decreases n,
{
    lemma_digit_char(n % 10);
    if n < 10 {
        let s = decimal(n);
        assert(s.drop_last() =~= Seq::<char>::empty());
        assert(digits_value(s.drop_last()) == 0);
    } else {
        lemma_decimal(n / 10);
        let s = decimal(n);
        assert(s.drop_last() =~= decimal(n / 10));
    }
}

/// Leading zeros leave the value unchanged.
proof fn lemma_zeros_then(k: nat, s: Seq<char>)
    requires
        all_digits(s),
    ensures
        all_digits(zeros(k) + s),
        digits_value(zeros(k) + s) == digits_value(s),
    decreases s.len(), k,
{
    let t = zeros(k) + s;
    if s.len() > 0 {
        lemma_zeros_then(k, s.drop_last());
        assert(t.drop_last() =~= zeros(k) + s.drop_last());
    } else if k > 0 {
        lemma_zeros_then((k - 1) as nat, s);
        assert(t.drop_last() =~= zeros((k - 1) as nat) + s);
    } else {
        assert(t =~= s);
    }
}

/// Reading a number back from its decimal text, with or without leading zeros,
/// gives the number, as long as it is within the reader's bound.
pub proof fn law_parse_decimal(n: nat, width: nat, max: nat)
    requires
        n <= max,
    ensures
        parse_unsigned(decimal(n), max) == Some(n),
        parse_unsigned(padded_decimal(n, width), max) == Some(n),
{
    lemma_decimal(n);
    let d = decimal(n);
    assert(is_digit(d[0]));
    assert(without_plus(d) == d);
    let p = padded_decimal(n, width);
    if d.len() < width {
        lemma_zeros_then((width - d.len()) as nat, d);
    }
    assert(is_digit(p[0]));
    assert(without_plus(p) == p);
}

/// Different numbers have different decimal texts.
pub proof fn law_decimal_injective(m: nat, n: nat)
    requires
        decimal(m) == decimal(n),
    ensures
        m == n,
{
    lemma_decimal(m);
    lemma_decimal(n);
}

/// Appends the decimal text of `n`.
pub fn push_decimal(out: &mut String, n: u64)
    ensures
        final(out)@ == old(out)@ + decimal(n as nat),
    decreases n,
{
    if n >= 10 {
        push_decimal(out, n / 10);
    }
    let d = digit_text(n % 10);
    out.append(d);
    assert(out@ =~= old(out)@ + decimal(n as nat));
}

fn digit_text(d: u64) -> (r: &'static str)
    requires
        d < 10,
    ensures
        r@ == seq![digit_char(d as nat)],
{
    proof {
        reveal_strlit("0");
        reveal_strlit("1");
        reveal_strlit("2");
        reveal_strlit("3");
        reveal_strlit("4");
        reveal_strlit("5");
        reveal_strlit("6");
        reveal_strlit("7");
        reveal_strlit("8");
        reveal_strlit("9");
    }
    let r = if d == 0 {
        "0"
    } else if d == 1 {
        "1"
    } else if d == 2 {
        "2"
    } else if d == 3 {
        "3"
    } else if d == 4 {
        "4"
    } else if d == 5 {
        "5"
    } else if d == 6 {
        "6"
    } else if d == 7 {
        "7"
    } else if d == 8 {
        "8"
    } else {
        "9"
    };
    assert(r@ =~= seq![digit_char(d as nat)]);
    r
}

/// `a` followed by `b`.
pub fn join(a: &str, b: &str) -> (r: String)
    ensures
        r@ == a@ + b@,
{
    let mut r = a.to_string();
    r.append(b);
    r
}

/// The decimal text of `n`, filled up with zeros to `width` digits.
pub fn padded_decimal_text(n: u64, width: usize) -> (r: String)
    ensures
        r@ == padded_decimal(n as nat, width as nat),
{
    let mut digits = String::new();
    push_decimal(&mut digits, n);
    assert(digits@ =~= decimal(n as nat));
    let len = digits.as_str().unicode_len();
    let mut out = String::new();
    if len < width {
        proof {
            reveal_strlit("0");
        }
        let mut i: usize = 0;
        while i < width - len
            invariant
                i <= width - len,
                len < width,
                "0"@ =~= seq!['0'],
                out@ =~= zeros(i as nat),
            decreases width - len - i,
        {
            out.append("0");
            i = i + 1;
        }
    }
    out.append(digits.as_str());
    assert(out@ =~= padded_decimal(n as nat, width as nat));
    out
}

/// The characters of `s`.
pub fn chars_of(s: &str) -> (r: Vec<char>)
    ensures
        r@ == s@,
{
    let mut r: Vec<char> = Vec::new();
    for c in it: s.chars()
        invariant
            it.seq() == s@,
            r@ == s@.take(it.index()),
    {
        r.push(c);
        assert(s@.take(it.index() + 1) =~= s@.take(it.index()).push(c));
    }
    assert(s@.take(s@.len() as int) =~= s@);
    r
}

proof fn lemma_digits_value_prefix(s: Seq<char>, k: int)
    requires
        0 <= k <= s.len(),
    ensures
        digits_value(s.take(k)) <= digits_value(s),
    decreases s.len() - k,
{
    if k < s.len() {
        lemma_digits_value_prefix(s, k + 1);
        assert(s.take(k + 1).drop_last() =~= s.take(k));
    } else {
        assert(s.take(k) =~= s);
    }
}

/// The unsigned number that `s` spells, if it is at most `max`.
pub fn parse_digits(s: &[char], max: u64) -> (r: Option<u64>)
    ensures
        match parse_unsigned(s@, max as nat) {
            Some(n) => r is Some && r->0 == n,
            None => r is None,
        },
{
    let len = s.len();
    let start: usize = if len > 0 && s[0] == '+' {
        1
    } else {
        0
    };
    let ghost t = without_plus(s@);
    assert(t =~= s@.skip(start as int));
    if start == len {
        return None;
    }
    let mut value: u64 = 0;
    let mut i: usize = start;
    assert(t.take(0) =~= Seq::<char>::empty());
    while i < len
        invariant
            start <= i <= len,
            len == s@.len(),
            t == s@.skip(start as int),
            t == without_plus(s@),
            value <= max,
            value == digits_value(t.take(i - start)),
            forall|j: int| 0 <= j < i - start ==> is_digit(#[trigger] t[j]),
        decreases len - i,
    {
        let c = s[i];
        let u = c as u32;
        assert(t[i - start] == c);
        if u < 48 || u > 57 {
            assert(!is_digit(t[i - start]));
            return None;
        }
        let d = (u - 48) as u64;
        let ghost next = t.take(i - start + 1);
        assert(next.drop_last() =~= t.take(i - start));
        proof {
            lemma_digits_value_prefix(t, i - start + 1);
        }
        if value > (max / 10) {
            assert(10 * value + d > max) by (nonlinear_arith)
                requires
                    value > max / 10,
            ;
            return None;
        }
        assert(10 * value <= max) by (nonlinear_arith)
            requires
                value <= max / 10,
        ;
        if d > max - 10 * value {
            return None;
        }
        value = 10 * value + d;
        i = i + 1;
    }
    assert(t.take(len - start) =~= t);
    Some(value)
}

fn white_space(c: char) -> (r: bool)
    ensures
        r == is_white_space(c),
{
    let u = c as u32;
    (0x9 <= u && u <= 0xD) || u == 0x20 || u == 0x85 || u == 0xA0 || u == 0x1680 || (0x2000 <= u
        && u <= 0x200A) || u == 0x2028 || u == 0x2029 || u == 0x202F || u == 0x205F || u == 0x3000
}

/// The bounds, in `s`, of its first line without the white space around it.
pub fn first_line_bounds(s: &Vec<char>) -> (r: (usize, usize))
    ensures
        r.0 <= r.1 <= s@.len(),
        s@.subrange(r.0 as int, r.1 as int) == trim(first_line(s@)),
{
    let len = s.len();
    let mut end: usize = 0;
    assert(s@.skip(0) =~= s@);
    while end < len && s[end] != '\n'
        invariant
            end <= len,
            len == s@.len(),
            first_line(s@) =~= s@.take(end as int) + first_line(s@.skip(end as int)),
        decreases len - end,
    {
        assert(s@.skip(end as int).drop_first() =~= s@.skip(end + 1));
        end = end + 1;
    }
    let ghost line = first_line(s@);
    assert(line =~= s@.take(end as int));
    let mut a: usize = 0;
    assert(s@.subrange(0, end as int) =~= line);
    while a < end && white_space(s[a])
        invariant
            a <= end <= len,
            len == s@.len(),
            trim_start(line) == trim_start(s@.subrange(a as int, end as int)),
        decreases end - a,
    {
        assert(s@.subrange(a as int, end as int).drop_first() =~= s@.subrange(a + 1, end as int));
        a = a + 1;
    }
    let ghost left = trim_start(line);
    assert(left =~= s@.subrange(a as int, end as int));
    let mut b: usize = end;
    while a < b && white_space(s[b - 1])
        invariant
            a <= b <= end <= len,
            len == s@.len(),
            trim_end(left) == trim_end(s@.subrange(a as int, b as int)),
        decreases b - a,
    {
        assert(s@.subrange(a as int, b as int).drop_last() =~= s@.subrange(a as int, b - 1));
        b = b - 1;
    }
    (a, b)
}

/// Whether `p` stands in `s`.
pub fn contains(s: &str, p: &str) -> (r: bool)
    ensures
        r == contains_text(s@, p@),
{
    let hay = chars_of(s);
    let pat = chars_of(p);
    let n = hay.len();
    let m = pat.len();
    if m > n {
        return false;
    }
    let mut i: usize = 0;
    while i <= n - m
        invariant
            m <= n,
            n == hay@.len(),
            m == pat@.len(),
            hay@ == s@,
            pat@ == p@,
            i <= n - m + 1,
            forall|k: int| 0 <= k < i ==> #[trigger] s@.subrange(k, k + m) != p@,
        decreases n - m + 1 - i,
    {
        let mut j: usize = 0;
        while j < m && hay[i + j] == pat[j]
            invariant
                j <= m,
                i + m <= n,
                n == hay@.len(),
                m == pat@.len(),
                forall|k: int| 0 <= k < j ==> hay@[i + k] == #[trigger] pat@[k],
            decreases m - j,
        {
            j = j + 1;
        }
        if j == m {
            assert(s@.subrange(i as int, i + m) =~= p@);
            return true;
        }
        assert(s@.subrange(i as int, i + m)[j as int] != p@[j as int]);
        if i == n - m {
            return false;
        }
        i = i + 1;
    }
    false
}

/// Different texts have different bytes.
pub proof fn lemma_utf8_injective(a: Seq<char>, b: Seq<char>)
    requires
        encode_utf8(a) == encode_utf8(b),
    ensures
        a == b,
{
    encode_utf8_decode_utf8(a);
    encode_utf8_decode_utf8(b);
}

/// Whether two strings are the same text.
pub fn same(a: &str, b: &str) -> (r: bool)
    ensures
        r == (a@ == b@),
{
    let x = a.as_bytes();
    let y = b.as_bytes();
    if x.len() != y.len() {
        return false;
    }
    let mut i: usize = 0;
    while i < x.len()
        invariant
            i <= x@.len(),
            x@.len() == y@.len(),
            x@ == encode_utf8(a@),
            y@ == encode_utf8(b@),
            forall|k: int| 0 <= k < i ==> x@[k] == y@[k],
        decreases x@.len() - i,
    {
        if x[i] != y[i] {
            return false;
        }
        i = i + 1;
    }
    assert(x@ =~= y@);
    proof {
        lemma_utf8_injective(a@, b@);
    }
    true
}

/// Whether `a` comes before `b` in the order of strings.
pub fn before(a: &str, b: &str) -> (r: bool)
    ensures
        r == text_lt(a@, b@),
{
    let x = a.as_bytes();
    let y = b.as_bytes();
    let mut i: usize = 0;
    assert(x@.skip(0) =~= x@);
    assert(y@.skip(0) =~= y@);
    while i < x.len() && i < y.len() && x[i] == y[i]
        invariant
            i <= x@.len(),
            i <= y@.len(),
            bytes_lt(x@, y@) == bytes_lt(x@.skip(i as int), y@.skip(i as int)),
        decreases x@.len() - i,
    {
        assert(x@.skip(i as int).drop_first() =~= x@.skip(i + 1));
        assert(y@.skip(i as int).drop_first() =~= y@.skip(i + 1));
        i = i + 1;
    }
    if i == y.len() {
        false
    } else if i == x.len() {
        true
    } else {
        x[i] < y[i]
    }
}

pub proof fn lemma_bytes_lt_trans(a: Seq<u8>, b: Seq<u8>, c: Seq<u8>)
    requires
        bytes_lt(a, b),
        bytes_lt(b, c),
    ensures
        bytes_lt(a, c),
    decreases a.len(),
{
    if a.len() > 0 && a[0] == b[0] && b[0] == c[0] {
        lemma_bytes_lt_trans(a.drop_first(), b.drop_first(), c.drop_first());
    }
}

pub proof fn lemma_bytes_lt_total(a: Seq<u8>, b: Seq<u8>)
    ensures
        bytes_lt(a, b) || bytes_lt(b, a) || a == b,
        !(bytes_lt(a, b) && bytes_lt(b, a)),
        a == b ==> !bytes_lt(a, b),
    decreases a.len(),
{
    if a.len() > 0 && b.len() > 0 && a[0] == b[0] {
        lemma_bytes_lt_total(a.drop_first(), b.drop_first());
        if a.drop_first() == b.drop_first() {
            assert(a =~= seq![a[0]] + a.drop_first());
            assert(b =~= seq![b[0]] + b.drop_first());
        }
    } else if a.len() == 0 && b.len() == 0 {
        assert(a =~= b);
    }
}

/// The order of strings is transitive.
pub proof fn lemma_text_lt_trans(a: Seq<char>, b: Seq<char>, c: Seq<char>)
    requires
        text_lt(a, b),
        text_lt(b, c),
    ensures
        text_lt(a, c),
{
    lemma_bytes_lt_trans(encode_utf8(a), encode_utf8(b), encode_utf8(c));
}

/// Of two strings one comes first, unless they are the same.
pub proof fn lemma_text_lt_total(a: Seq<char>, b: Seq<char>)
    ensures
        text_lt(a, b) || text_lt(b, a) || a == b,
        !(text_lt(a, b) && text_lt(b, a)),
        !text_lt(a, a),
{
    if encode_utf8(a) == encode_utf8(b) {
        lemma_utf8_injective(a, b);
    }
    lemma_bytes_lt_total(encode_utf8(a), encode_utf8(b));
    lemma_bytes_lt_total(encode_utf8(a), encode_utf8(a));
}


/// The text of an optional string.
pub open spec fn opt_text(s: Option<String>) -> Option<Seq<char>> {
    match s {
        Some(t) => Some(t@),
        None => None,
    }
}

/// A number below ten is one digit; any other is what a tenth of it is, and one digit more.
pub proof fn law_decimal_digits(n: nat)
    ensures
        n < 10 ==> decimal(n).len() == 1,
        n >= 10 ==> decimal(n).len() > 1 && decimal(n).drop_last() == decimal(n / 10),
        decimal(n).last() as u32 == '0' as u32 + n % 10,
        decimal(n).len() > 1 ==> decimal(n)[0] != '0',
    decreases n,
{
    if n >= 10 {
        law_decimal_digits(n / 10);
        assert(decimal(n).drop_last() =~= decimal(n / 10));
        assert(decimal(n)[0] == decimal(n / 10)[0]);
        if n / 10 < 10 {
            assert(decimal(n / 10).last() == decimal(n / 10)[0]);
        }
    }
}

/// A number that is filled up has at least the width that was asked for; before its own
/// digits stand only zeros.
pub proof fn law_padded_decimal(n: nat, width: nat)
    ensures
        padded_decimal(n, width).len() == if decimal(n).len() < width {
            width
        } else {
            decimal(n).len()
        },
        forall|i: int|
            0 <= i < padded_decimal(n, width).len() - decimal(n).len()
                ==> #[trigger] padded_decimal(n, width)[i] == '0',
        padded_decimal(n, width).skip(padded_decimal(n, width).len() - decimal(n).len()) == decimal(
            n,
        ),
{
    let p = padded_decimal(n, width);
    assert(p.skip(p.len() - decimal(n).len()) =~= decimal(n));
}

/// One digit alone is read as its value. A digit behind a number that was read makes ten
/// times the number and the digit, unless that is too great.
pub proof fn law_parse_digit(s: Seq<char>, c: char, max: nat)
    requires
        '0' as u32 <= c as u32 <= '9' as u32,
    ensures
        ({
            let d = (c as u32 - '0' as u32) as nat;
            &&& d <= max ==> parse_unsigned(seq![c], max) == Some(d)
            &&& parse_unsigned(s, max) matches Some(n) ==> parse_unsigned(s.push(c), max)
                == if 10 * n + d <= max {
                Some(10 * n + d)
            } else {
                None
            }
        }),
{
    let one = seq![c];
    assert(one.drop_last() =~= Seq::<char>::empty());
    assert(without_plus(one) == one);
    assert(all_digits(one));
    assert(digits_value(one.drop_last()) == 0);
    assert(digits_value(one) == (c as u32 - 48) as nat);
    if parse_unsigned(s, max) is Some {
        let t = without_plus(s);
        let u = without_plus(s.push(c));
        assert(s.len() > 0);
        assert(u =~= t.push(c));
        assert(u.drop_last() =~= t);
    }
}

/// One plus sign in front changes nothing. Nothing but digits is read as a number: no text
/// without one, and none with another character behind the sign.
pub proof fn law_parse_refuses(s: Seq<char>, i: int, max: nat)
    ensures
        s.len() == 0 ==> parse_unsigned(s, max) is None,
        s.len() > 0 && s[0] != '+' ==> parse_unsigned(seq!['+'] + s, max) == parse_unsigned(s, max),
        parse_unsigned(seq!['+'], max) is None,
        0 < i < s.len() && !('0' as u32 <= s[i] as u32 <= '9' as u32) ==> parse_unsigned(s, max) is None,
        s.len() > 0 && s[0] != '+' && !('0' as u32 <= s[0] as u32 <= '9' as u32) ==> parse_unsigned(
            s,
            max,
        ) is None,
        parse_unsigned(s, max) matches Some(n) ==> n <= max,
{
    assert((seq!['+'] + s).skip(1) =~= s);
    assert(seq!['+'].skip(1) =~= Seq::<char>::empty());
    if 0 < i < s.len() {
        let t = without_plus(s);
        let j = if s[0] == '+' {
            i - 1
        } else {
            i
        };
        assert(t[j] == s[i]);
    }
}

/// Spaces, tabs and ends of lines around a text are cut off, and nothing else of a text
/// that begins and ends with a letter, a digit or a hyphen.
pub proof fn law_trim(before: Seq<char>, s: Seq<char>, after: Seq<char>)
    requires
        forall|i: int| 0 <= i < before.len() ==> blank(#[trigger] before[i]),
        forall|i: int| 0 <= i < after.len() ==> blank(#[trigger] after[i]),
        s.len() > 0 ==> printed(s[0]) && printed(s.last()),
    ensures
        trim(before + s + after) == s,
{
    lemma_trim_start(before, s, after);
    if s.len() > 0 {
        lemma_trim_end(s, after);
    } else {
        assert(trim_start(before + s + after) =~= Seq::<char>::empty());
    }
}

/// A space, a tab, a line feed or a carriage return.
pub open spec fn blank(c: char) -> bool {
    c == ' ' || c == '\t' || c == '\n' || c == '\r'
}

/// A printed character of ASCII.
pub open spec fn printed(c: char) -> bool {
    '!' as u32 <= c as u32 <= '~' as u32
}

proof fn lemma_trim_start(before: Seq<char>, s: Seq<char>, after: Seq<char>)
    requires
        forall|i: int| 0 <= i < before.len() ==> blank(#[trigger] before[i]),
        forall|i: int| 0 <= i < after.len() ==> blank(#[trigger] after[i]),
        s.len() > 0 ==> printed(s[0]),
    ensures
        trim_start(before + s + after) == if s.len() > 0 {
            s + after
        } else {
            Seq::empty()
        },
    decreases before.len() + after.len(),
{
    let t = before + s + after;
    if before.len() > 0 {
        assert(t[0] == before[0]);
        assert(t.drop_first() =~= before.drop_first() + s + after);
        lemma_trim_start(before.drop_first(), s, after);
    } else if s.len() > 0 {
        assert(t =~= s + after);
        assert(t[0] == s[0]);
    } else if after.len() > 0 {
        assert(t[0] == after[0]);
        assert(t.drop_first() =~= before + s + after.drop_first());
        lemma_trim_start(before, s, after.drop_first());
    } else {
        assert(t =~= Seq::<char>::empty());
    }
}

proof fn lemma_trim_end(s: Seq<char>, after: Seq<char>)
    requires
        forall|i: int| 0 <= i < after.len() ==> blank(#[trigger] after[i]),
        s.len() > 0,
        printed(s.last()),
    ensures
        trim_end(s + after) == s,
    decreases after.len(),
{
    let t = s + after;
    if after.len() > 0 {
        assert(t.last() == after.last());
        assert(t.drop_last() =~= s + after.drop_last());
        lemma_trim_end(s, after.drop_last());
    } else {
        assert(t =~= s);
    }
}

/// The first line is what stands before the first line feed.
pub proof fn law_first_line(s: Seq<char>, rest: Seq<char>)
    requires
        forall|i: int| 0 <= i < s.len() ==> #[trigger] s[i] != '\n',
    ensures
        first_line(s) == s,
        first_line(s + seq!['\n'] + rest) == s,
    decreases s.len(),
{
    let t = s + seq!['\n'] + rest;
    if s.len() > 0 {
        law_first_line(s.drop_first(), rest);
        assert(t.drop_first() =~= s.drop_first() + seq!['\n'] + rest);
        assert(s[0] != '\n');
        assert(seq![s[0]] + s.drop_first() =~= s);
    } else {
        assert(t[0] == '\n');
        assert(s =~= Seq::<char>::empty());
    }
}

/// A text stands in another if and only if there is something, perhaps nothing, before it
/// and behind it.
pub proof fn law_contains_text(s: Seq<char>, before: Seq<char>, p: Seq<char>, after: Seq<char>)
    ensures
        contains_text(before + p + after, p),
        contains_text(s, p) ==> exists|a: Seq<char>, b: Seq<char>| s == #[trigger] (a + p + b),
{
    let t = before + p + after;
    let k = before.len() as int;
    assert(t.subrange(k, k + p.len()) =~= p);
    if contains_text(s, p) {
        let i = choose|i: int|
            0 <= i && i + p.len() <= s.len() && #[trigger] s.subrange(i, i + p.len()) == p;
        assert(s =~= s.take(i) + p + s.skip(i + p.len()));
    }
}

/// Of two byte strings, the one that ends where the other goes on comes first; else the one
/// with the lower byte where they first differ.
pub proof fn law_bytes_lt(p: Seq<u8>, a: Seq<u8>, b: Seq<u8>)
    ensures
        b.len() > 0 ==> bytes_lt(p, p + b),
        a.len() > 0 && b.len() > 0 && a[0] < b[0] ==> bytes_lt(p + a, p + b),
        !bytes_lt(p + a, p),
    decreases p.len(),
{
    if p.len() > 0 {
        law_bytes_lt(p.drop_first(), a, b);
        assert((p + a).drop_first() =~= p.drop_first() + a);
        assert((p + b).drop_first() =~= p.drop_first() + b);
    }
}

/// The characters of the first line, without the blanks around it, are all in the text.
pub proof fn lemma_line_within(s: Seq<char>)
    ensures
        forall|c: char| #[trigger] trim(first_line(s)).contains(c) ==> s.contains(c),
{
    lemma_first_line_within(s);
    let l = first_line(s);
    lemma_trim_start_within(l);
    lemma_trim_end_within(trim_start(l));
}

proof fn lemma_first_line_within(s: Seq<char>)
    ensures
        forall|c: char| #[trigger] first_line(s).contains(c) ==> s.contains(c),
    decreases s.len(),
{
    if s.len() > 0 && s[0] != '\n' {
        lemma_first_line_within(s.drop_first());
        assert forall|c: char| #[trigger] first_line(s).contains(c) implies s.contains(c) by {
            let t = first_line(s.drop_first());
            let i = choose|i: int| 0 <= i < first_line(s).len() && first_line(s)[i] == c;
            if i == 0 {
                assert(s[0] == c);
            } else {
                assert(t[i - 1] == c);
                assert(t.contains(c));
                let j = choose|j: int| 0 <= j < s.drop_first().len() && s.drop_first()[j] == c;
                assert(s[j + 1] == c);
            }
        }
    }
}

proof fn lemma_trim_start_within(s: Seq<char>)
    ensures
        forall|c: char| #[trigger] trim_start(s).contains(c) ==> s.contains(c),
    decreases s.len(),
{
    if s.len() > 0 && is_white_space(s[0]) {
        lemma_trim_start_within(s.drop_first());
        assert forall|c: char| #[trigger] trim_start(s).contains(c) implies s.contains(c) by {
            assert(trim_start(s.drop_first()).contains(c));
            let j = choose|j: int| 0 <= j < s.drop_first().len() && s.drop_first()[j] == c;
            assert(s[j + 1] == c);
        }
    }
}

proof fn lemma_trim_end_within(s: Seq<char>)
    ensures
        forall|c: char| #[trigger] trim_end(s).contains(c) ==> s.contains(c),
    decreases s.len(),
{
    if s.len() > 0 && is_white_space(s.last()) {
        lemma_trim_end_within(s.drop_last());
        assert forall|c: char| #[trigger] trim_end(s).contains(c) implies s.contains(c) by {
            assert(trim_end(s.drop_last()).contains(c));
            let j = choose|j: int| 0 <= j < s.drop_last().len() && s.drop_last()[j] == c;
            assert(s[j] == c);
        }
    }
}

/// White space is the blanks of ASCII and of Latin-1, and the spaces and separators of
/// Unicode.
pub proof fn law_white_space(c: char)
    ensures
        is_white_space(c) <==> seq![
            0x9u32,
            0xA,
            0xB,
            0xC,
            0xD,
            0x20,
            0x85,
            0xA0,
            0x1680,
            0x2000,
            0x2001,
            0x2002,
            0x2003,
            0x2004,
            0x2005,
            0x2006,
            0x2007,
            0x2008,
            0x2009,
            0x200A,
            0x2028,
            0x2029,
            0x202F,
            0x205F,
            0x3000,
        ].contains(c as u32),
{
    let s = seq![
        0x9u32,
        0xA,
        0xB,
        0xC,
        0xD,
        0x20,
        0x85,
        0xA0,
        0x1680,
        0x2000,
        0x2001,
        0x2002,
        0x2003,
        0x2004,
        0x2005,
        0x2006,
        0x2007,
        0x2008,
        0x2009,
        0x200A,
        0x2028,
        0x2029,
        0x202F,
        0x205F,
        0x3000,
    ];
    let u = c as u32;
    if 0x9 <= u <= 0xD {
        assert(s[u - 0x9] == u);
    } else if 0x2000 <= u <= 0x200A {
        assert(s[9 + (u - 0x2000)] == u);
    } else {
        assert(s[5] == 0x20 && s[6] == 0x85 && s[7] == 0xA0 && s[8] == 0x1680 && s[20] == 0x2028
            && s[21] == 0x2029 && s[22] == 0x202F && s[23] == 0x205F && s[24] == 0x3000);
    }
}

/// Texts are ordered as their bytes are, and a text that is not there has no characters.
pub proof fn law_text_order(a: Seq<char>, b: Seq<char>, s: Option<String>)
    ensures
        text_lt(a, b) <==> bytes_lt(encode_utf8(a), encode_utf8(b)),
        s is None ==> opt_text(s) is None,
        s is Some ==> opt_text(s) == Some(s->0@),
{
}

} // verus!
