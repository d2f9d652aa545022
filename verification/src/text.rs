//! Strings as sequences of characters: trimming, splitting, and numbers in decimal.
use vstd::prelude::*;

verus! {

/// `String::push` appends one character.
pub assume_specification[ String::push ](s: &mut String, c: char)
    ensures
        final(s)@ == old(s)@.push(c),
;

/// The characters with the Unicode property White_Space.
pub open spec fn white_space(c: char) -> bool {
    let n = c as u32;
    ||| 0x9 <= n <= 0xD
    ||| n == 0x20
    ||| n == 0x85
    ||| n == 0xA0
    ||| n == 0x1680
    ||| 0x2000 <= n <= 0x200A
    ||| n == 0x2028
    ||| n == 0x2029
    ||| n == 0x202F
    ||| n == 0x205F
    ||| n == 0x3000
}

/// Decides whether a character is white space.
pub fn is_white_space(c: char) -> (r: bool)
    ensures
        r == white_space(c),
{
    let n: u32 = c as u32;
    (0x9 <= n && n <= 0xD) || n == 0x20 || n == 0x85 || n == 0xA0 || n == 0x1680 || (0x2000 <= n
        && n <= 0x200A) || n == 0x2028 || n == 0x2029 || n == 0x202F || n == 0x205F || n == 0x3000
}

/// The characters of a string, in order.
pub fn to_chars(s: &str) -> (v: Vec<char>)
    ensures
        v@ == s@,
{
    let mut v: Vec<char> = Vec::new();
    for c in it: s.chars()
        invariant
            v@ == it.seq().take(it.index() as int),
            it.seq() == s@,
    {
        v.push(c);
    }
    v
}

/// The string made of the characters `from..to` of `chars`.
pub fn from_chars(chars: &Vec<char>, from: usize, to: usize) -> (s: String)
    requires
        from <= to <= chars@.len(),
    ensures
        s@ == chars@.subrange(from as int, to as int),
{
    let mut s = String::new();
    let mut i: usize = from;
    while i < to
        invariant
            from <= i <= to <= chars@.len(),
            s@ == chars@.subrange(from as int, i as int),
        decreases to - i,
    {
        s.push(chars[i]);
        i = i + 1;
        assert(chars@.subrange(from as int, i as int) == chars@.subrange(from as int, i - 1).push(
            chars@[i - 1],
        ));
    }
    s
}

/// `s` without the white space in front.
pub open spec fn trim_start(s: Seq<char>) -> Seq<char>
    decreases s.len(),
{
    if s.len() > 0 && white_space(s[0]) {
        trim_start(s.drop_first())
    } else {
        s
    }
}

/// `s` without the white space behind.
pub open spec fn trim_end(s: Seq<char>) -> Seq<char>
    decreases s.len(),
{
    if s.len() > 0 && white_space(s.last()) {
        trim_end(s.drop_last())
    } else {
        s
    }
}

/// `s` without the white space at either end.
pub open spec fn trim(s: Seq<char>) -> Seq<char> {
    trim_end(trim_start(s))
}

/// A string without the white space at either end.
pub fn trimmed(s: &str) -> (r: String)
    ensures
        r@ == trim(s@),
{
    let chars = to_chars(s);
    let n: usize = chars.len();
    let mut from: usize = 0;
    assert(chars@.skip(0) == chars@);
    while from < n && is_white_space(chars[from])
        invariant
            n == chars@.len(),
            from <= n,
            trim_start(chars@.skip(from as int)) == trim_start(chars@),
        decreases n - from,
    {
        assert(chars@.skip(from as int).drop_first() == chars@.skip(from + 1));
        from = from + 1;
    }
    assert(trim_start(chars@) == chars@.skip(from as int));
    let mut to: usize = n;
    assert(chars@.subrange(from as int, n as int) == chars@.skip(from as int));
    while from < to && is_white_space(chars[to - 1])
        invariant
            n == chars@.len(),
            from <= to <= n,
            trim_end(chars@.subrange(from as int, to as int)) == trim_end(chars@.skip(from as int)),
        decreases to - from,
    {
        assert(chars@.subrange(from as int, to as int).drop_last() == chars@.subrange(
            from as int,
            to - 1,
        ));
        to = to - 1;
    }
    assert(trim_end(chars@.subrange(from as int, to as int)) == chars@.subrange(
        from as int,
        to as int,
    ));
    from_chars(&chars, from, to)
}

/// Trimming leaves no white space at either end.
pub proof fn trim_leaves_no_white_space_at_the_ends(s: Seq<char>)
    ensures
        trim(s).len() > 0 ==> !white_space(trim(s)[0]) && !white_space(trim(s).last()),
{
    trim_start_ends(s);
    trim_end_ends(trim_start(s));
}

proof fn trim_start_ends(s: Seq<char>)
    ensures
        trim_start(s).len() > 0 ==> !white_space(trim_start(s)[0]),
    decreases s.len(),
{
    if s.len() > 0 && white_space(s[0]) {
        trim_start_ends(s.drop_first());
    }
}

proof fn trim_end_ends(s: Seq<char>)
    ensures
        trim_end(s).len() > 0 ==> !white_space(trim_end(s).last()) && trim_end(s)[0] == s[0],
        trim_end(s).len() <= s.len(),
    decreases s.len(),
{
    if s.len() > 0 && white_space(s.last()) {
        trim_end_ends(s.drop_last());
    }
}

/// Trimming twice is trimming once.
pub proof fn trim_is_idempotent(s: Seq<char>)
    ensures
        trim(trim(s)) == trim(s),
{
    trim_leaves_no_white_space_at_the_ends(s);
}

/// Whether every character is a decimal digit.
pub open spec fn all_digits(s: Seq<char>) -> bool {
    forall|i: int| 0 <= i < s.len() ==> '0' <= #[trigger] s[i] <= '9'
}

/// The number that the digits `s` denote.
pub open spec fn value(s: Seq<char>) -> nat
    decreases s.len(),
{
    if s.len() == 0 {
        0
    } else {
        value(s.drop_last()) * 10 + (s.last() as u32 - '0' as u32) as nat
    }
}

/// The number that `s` denotes: digits, of which there is at least one, behind a sign that
/// may be left out.
pub open spec fn number(s: Seq<char>) -> Option<int> {
    let signed = s.len() > 0 && (s[0] == '+' || s[0] == '-');
    let digits = if signed {
        s.skip(1)
    } else {
        s
    };
    if digits.len() == 0 || !all_digits(digits) {
        None
    } else if s[0] == '-' {
        Some(-(value(digits) as int))
    } else {
        Some(value(digits) as int)
    }
}

/// The number that `s` denotes where no minus sign is accepted.
pub open spec fn natural(s: Seq<char>) -> Option<nat> {
    if s.len() > 0 && s[0] == '-' {
        None
    } else {
        match number(s) {
            Some(v) => Some(v as nat),
            None => None,
        }
    }
}

proof fn value_grows(s: Seq<char>, k: int)
    requires
        0 <= k <= s.len(),
        all_digits(s),
    ensures
        value(s.take(k)) <= value(s),
    decreases s.len(),
{
    if k == s.len() {
        assert(s.take(k) == s);
    } else {
        assert(s.drop_last().take(k) == s.take(k));
        assert(all_digits(s.drop_last()));
        value_grows(s.drop_last(), k);
    }
}

/// The value of the digits from `from` on, where it is at most `limit`.
fn parse_digits(chars: &Vec<char>, from: usize, limit: u64) -> (r: Option<u64>)
    requires
        from <= chars@.len(),
    ensures
        match r {
            Some(v) => {
                &&& from < chars@.len()
                &&& all_digits(chars@.skip(from as int))
                &&& v == value(chars@.skip(from as int))
                &&& v <= limit
            },
            None => {
                ||| from == chars@.len()
                ||| !all_digits(chars@.skip(from as int))
                ||| value(chars@.skip(from as int)) > limit
            },
        },
{
    if from == chars.len() {
        return None;
    }
    let ghost digits = chars@.skip(from as int);
    let mut v: u64 = 0;
    let mut i: usize = from;
    while i < chars.len()
        invariant
            from <= i <= chars@.len(),
            digits == chars@.skip(from as int),
            all_digits(digits.take(i - from)),
            v == value(digits.take(i - from)),
            v <= limit,
        decreases chars@.len() - i,
    {
        let c: char = chars[i];
        let ghost k = i - from;
        assert(digits[k] == c);
        assert(digits.take(k + 1).drop_last() == digits.take(k));
        if !('0' <= c && c <= '9') {
            return None;
        }
        let d: u64 = (c as u32 - '0' as u32) as u64;
        if v > limit / 10 || d > limit - v * 10 {
            proof {
                if all_digits(digits) {
                    value_grows(digits, k + 1);
                }
            }
            return None;
        }
        v = v * 10 + d;
        i = i + 1;
    }
    assert(digits.take(i - from) == digits);
    Some(v)
}

/// Reads a `usize` in decimal.
pub fn parse_usize(s: &str) -> (r: Option<usize>)
    ensures
        match r {
            Some(v) => natural(s@) == Some(v as nat),
            None => match natural(s@) {
                Some(v) => v > usize::MAX,
                None => true,
            },
        },
{
    let chars = to_chars(s);
    let from: usize = if chars.len() > 0 && chars[0] == '+' {
        1
    } else {
        0
    };
    if chars.len() > 0 && chars[0] == '-' {
        return None;
    }
    assert(from == 0 ==> chars@.skip(0) == chars@);
    match parse_digits(&chars, from, usize::MAX as u64) {
        Some(v) => Some(v as usize),
        None => None,
    }
}

/// Reads a `u32` in decimal.
pub fn parse_u32(s: &str) -> (r: Option<u32>)
    ensures
        match r {
            Some(v) => natural(s@) == Some(v as nat),
            None => match natural(s@) {
                Some(v) => v > u32::MAX,
                None => true,
            },
        },
{
    let chars = to_chars(s);
    let from: usize = if chars.len() > 0 && chars[0] == '+' {
        1
    } else {
        0
    };
    if chars.len() > 0 && chars[0] == '-' {
        return None;
    }
    assert(from == 0 ==> chars@.skip(0) == chars@);
    match parse_digits(&chars, from, u32::MAX as u64) {
        Some(v) => Some(v as u32),
        None => None,
    }
}

/// Reads an `i32` in decimal.
pub fn parse_i32(s: &str) -> (r: Option<i32>)
    ensures
        match r {
            Some(v) => number(s@) == Some(v as int),
            None => match number(s@) {
                Some(v) => v < i32::MIN || v > i32::MAX,
                None => true,
            },
        },
{
    let chars = to_chars(s);
    let minus: bool = chars.len() > 0 && chars[0] == '-';
    let from: usize = if minus || chars.len() > 0 && chars[0] == '+' {
        1
    } else {
        0
    };
    assert(from == 0 ==> chars@.skip(0) == chars@);
    let limit: u64 = if minus {
        0x8000_0000
    } else {
        0x7FFF_FFFF
    };
    match parse_digits(&chars, from, limit) {
        Some(v) => {
            if minus {
                Some((-(v as i64)) as i32)
            } else {
                Some(v as i32)
            }
        },
        None => None,
    }
}

/// The contents of a list of strings.
pub open spec fn views(v: Seq<String>) -> Seq<Seq<char>> {
    Seq::new(v.len(), |i: int| v[i]@)
}

/// The pieces of `s` between the characters of `separators`, empty ones included.
pub open spec fn split(s: Seq<char>, separators: Seq<char>) -> Seq<Seq<char>>
    decreases s.len(),
{
    if s.len() == 0 {
        seq![Seq::empty()]
    } else {
        let pieces = split(s.drop_last(), separators);
        if separators.contains(s.last()) {
            pieces.push(Seq::empty())
        } else {
            pieces.drop_last().push(pieces.last().push(s.last()))
        }
    }
}

/// There is always at least one piece.
pub proof fn split_is_not_empty(s: Seq<char>, separators: Seq<char>)
    ensures
        split(s, separators).len() > 0,
    decreases s.len(),
{
    if s.len() > 0 {
        split_is_not_empty(s.drop_last(), separators);
    }
}

/// Decides whether `chars` holds `c`.
fn holds(chars: &[char], c: char) -> (r: bool)
    ensures
        r == chars@.contains(c),
{
    let mut i: usize = 0;
    while i < chars.len()
        invariant
            i <= chars@.len(),
            forall|j: int| 0 <= j < i ==> chars@[j] != c,
        decreases chars@.len() - i,
    {
        if chars[i] == c {
            return true;
        }
        i = i + 1;
    }
    false
}

/// Splits a string at every character of `separators`.
pub fn split_at_any(s: &str, separators: &[char]) -> (pieces: Vec<String>)
    ensures
        views(pieces@) == split(s@, separators@),
{
    let chars = to_chars(s);
    let mut pieces: Vec<String> = Vec::new();
    let mut current = String::new();
    let mut i: usize = 0;
    assert(split(chars@.take(0), separators@) == seq![Seq::<char>::empty()]);
    while i < chars.len()
        invariant
            i <= chars@.len(),
            views(pieces@).push(current@) == split(chars@.take(i as int), separators@),
        decreases chars@.len() - i,
    {
        let c: char = chars[i];
        let ghost before = views(pieces@);
        let ghost held = current@;
        assert(chars@.take(i + 1).drop_last() == chars@.take(i as int));
        assert(before.push(held).drop_last() == before);
        if holds(separators, c) {
            pieces.push(current);
            current = String::new();
            assert(views(pieces@) == before.push(held));
        } else {
            current.push(c);
        }
        i = i + 1;
    }
    assert(chars@.take(i as int) == chars@);
    let ghost before = views(pieces@);
    let ghost held = current@;
    pieces.push(current);
    assert(views(pieces@) == before.push(held));
    pieces
}

/// The decimal digits of a number.
pub open spec fn decimal(n: nat) -> Seq<char>
    decreases n,
{
    let digit = (n % 10 + '0' as nat) as char;
    if n < 10 {
        seq![digit]
    } else {
        decimal(n / 10).push(digit)
    }
}

/// Reading the decimal digits of a number gives the number.
pub proof fn decimal_is_read_back(n: nat)
    ensures
        decimal(n).len() > 0,
        all_digits(decimal(n)),
        value(decimal(n)) == n,
        number(decimal(n)) == Some(n as int),
        natural(decimal(n)) == Some(n),
    decreases n,
{
    let d = decimal(n);
    if n < 10 {
        assert(d.drop_last() == Seq::<char>::empty());
        assert(value(d.drop_last()) == 0);
    } else {
        decimal_is_read_back(n / 10);
        assert(d.drop_last() == decimal(n / 10));
    }
    assert('0' <= d[0] <= '9');
    assert(d.last() as u32 - '0' as u32 == n % 10);
    assert(value(d) == value(d.drop_last()) * 10 + n % 10);
}

/// Appends the decimal digits of a number.
pub fn push_decimal(s: &mut String, n: u64)
    ensures
        final(s)@ == old(s)@ + decimal(n as nat),
    decreases n,
{
    let ghost before = s@;
    let digit: u8 = (n % 10) as u8 + 48;
    if n >= 10 {
        push_decimal(s, n / 10);
    }
    s.push(digit as char);
    assert(s@ == before + decimal(n as nat));
}

/// The digit of a number below 16 in lower-case hexadecimal.
pub open spec fn hex_digit(d: nat) -> char {
    if d < 10 {
        (d + '0' as nat) as char
    } else {
        (d - 10 + 'a' as nat) as char
    }
}

/// The lower-case hexadecimal digits of a number.
pub open spec fn hexadecimal(n: nat) -> Seq<char>
    decreases n,
{
    let digit = hex_digit(n % 16);
    if n < 16 {
        seq![digit]
    } else {
        hexadecimal(n / 16).push(digit)
    }
}

/// Appends the lower-case hexadecimal digits of a number.
pub fn push_hexadecimal(s: &mut String, n: u64)
    ensures
        final(s)@ == old(s)@ + hexadecimal(n as nat),
    decreases n,
{
    let ghost before = s@;
    let d: u8 = (n % 16) as u8;
    let digit: u8 = if d < 10 {
        d + 48
    } else {
        d - 10 + 97
    };
    if n >= 16 {
        push_hexadecimal(s, n / 16);
    }
    s.push(digit as char);
    assert(s@ == before + hexadecimal(n as nat));
}

proof fn start_of_trimmed(s: Seq<char>) -> (a: int)
    ensures
        0 <= a <= s.len(),
        trim_start(s) == s.skip(a),
        forall|i: int| 0 <= i < a ==> white_space(#[trigger] s[i]),
        a < s.len() ==> !white_space(s[a]),
    decreases s.len(),
{
    if s.len() > 0 && white_space(s[0]) {
        let rest = s.drop_first();
        let a = start_of_trimmed(rest);
        assert(rest.skip(a) == s.skip(a + 1));
        assert forall|i: int| 0 <= i < a + 1 implies white_space(#[trigger] s[i]) by {
            if i > 0 {
                assert(rest[i - 1] == s[i]);
            }
        }
        if a + 1 < s.len() {
            assert(rest[a] == s[a + 1]);
        }
        a + 1
    } else {
        assert(s.skip(0) == s);
        0
    }
}

proof fn end_of_trimmed(s: Seq<char>) -> (b: int)
    ensures
        0 <= b <= s.len(),
        trim_end(s) == s.take(b),
        forall|i: int| b <= i < s.len() ==> white_space(#[trigger] s[i]),
        b > 0 ==> !white_space(s[b - 1]),
    decreases s.len(),
{
    if s.len() > 0 && white_space(s.last()) {
        let rest = s.drop_last();
        let b = end_of_trimmed(rest);
        assert(rest.take(b) == s.take(b));
        assert forall|i: int| b <= i < s.len() implies white_space(#[trigger] s[i]) by {
            if i < s.len() - 1 {
                assert(rest[i] == s[i]);
            }
        }
        b
    } else {
        assert(s.take(s.len() as int) == s);
        s.len() as int
    }
}

/// Trimming takes off white space alone, and all of it at either end: what is left is a part
/// of the text that neither begins nor ends with white space, with nothing but white space
/// before and behind it.
pub proof fn trimming_takes_off_white_space_alone(s: Seq<char>)
    ensures
        exists|a: int, b: int|
            0 <= a <= b <= s.len() && trim(s) == #[trigger] s.subrange(a, b) && (forall|i: int|
                0 <= i < a || b <= i < s.len() ==> white_space(#[trigger] s[i])) && (a < b
                ==> !white_space(s[a]) && !white_space(s[b - 1])),
{
    let a = start_of_trimmed(s);
    let rest = s.skip(a);
    let b = end_of_trimmed(rest);
    assert(rest.take(b) == s.subrange(a, a + b));
    assert forall|i: int| 0 <= i < a || a + b <= i < s.len() implies white_space(
        #[trigger] s[i],
    ) by {
        if i >= a {
            assert(rest[i - a] == s[i]);
        }
    }
    if b > 0 {
        assert(rest[b - 1] == s[a + b - 1]);
    }
}

/// Every further digit makes what stands before it weigh ten times as much.
pub proof fn digits_weigh_tenfold(s: Seq<char>, c: char)
    requires
        '0' <= c <= '9',
    ensures
        value(Seq::<char>::empty()) == 0,
        value(s.push(c)) == 10 * value(s) + (c as int - 48),
{
    assert(s.push(c).drop_last() == s);
}

/// Digits denote their value; a plus sign in front changes nothing, a minus sign negates the
/// number and is not accepted of a natural one.
pub proof fn signs_are_read(d: Seq<char>)
    requires
        d.len() > 0,
        forall|i: int| 0 <= i < d.len() ==> '0' <= #[trigger] d[i] <= '9',
    ensures
        number(d) == Some(value(d) as int),
        number(seq!['+'] + d) == Some(value(d) as int),
        number(seq!['-'] + d) == Some(-(value(d) as int)),
        natural(d) == Some(value(d)),
        natural(seq!['+'] + d) == Some(value(d)),
        natural(seq!['-'] + d) is None,
{
    assert('0' <= d[0] <= '9');
    assert((seq!['+'] + d).skip(1) == d);
    assert((seq!['-'] + d).skip(1) == d);
    assert((seq!['+'] + d)[0] == '+');
    assert((seq!['-'] + d)[0] == '-');
}

/// A number is made of digits, at least one, and of nothing else but a sign in front.
pub proof fn numbers_are_made_of_digits(s: Seq<char>)
    requires
        number(s) is Some || natural(s) is Some,
    ensures
        s.len() > 0,
        '0' <= s[0] <= '9' || (s.len() > 1 && (s[0] == '+' || s[0] == '-')),
        natural(s) is Some ==> s[0] != '-',
        forall|i: int| 1 <= i < s.len() ==> '0' <= #[trigger] s[i] <= '9',
{
    if s[0] == '+' || s[0] == '-' {
        assert forall|i: int| 1 <= i < s.len() implies '0' <= #[trigger] s[i] <= '9' by {
            assert(s.skip(1)[i - 1] == s[i]);
        }
    }
}

/// Multiplying a number by ten and adding a digit appends that digit in decimal.
pub proof fn decimal_appends_a_digit(n: nat, d: nat)
    requires
        d < 10,
    ensures
        decimal(d) == seq!["0123456789"@[d as int]],
        n > 0 ==> decimal(10 * n + d) == decimal(n).push("0123456789"@[d as int]),
{
    reveal_strlit("0123456789");
    assert((10 * n + d) % 10 == d);
    assert((10 * n + d) / 10 == n);
}

/// Multiplying a number by sixteen and adding a digit appends that digit in hexadecimal.
pub proof fn hexadecimal_appends_a_digit(n: nat, d: nat)
    requires
        d < 16,
    ensures
        hexadecimal(d) == seq!["0123456789abcdef"@[d as int]],
        n > 0 ==> hexadecimal(16 * n + d) == hexadecimal(n).push("0123456789abcdef"@[d as int]),
{
    reveal_strlit("0123456789abcdef");
    assert((16 * n + d) % 16 == d);
    assert((16 * n + d) / 16 == n);
}

/// Text without a separator is one piece.
pub proof fn text_without_separators_is_one_piece(s: Seq<char>, separators: Seq<char>)
    requires
        forall|i: int| 0 <= i < s.len() ==> !separators.contains(#[trigger] s[i]),
    ensures
        split(s, separators) == seq![s],
    decreases s.len(),
{
    if s.len() > 0 {
        let rest = s.drop_last();
        assert forall|i: int| 0 <= i < rest.len() implies !separators.contains(
            #[trigger] rest[i],
        ) by {
            assert(rest[i] == s[i]);
        }
        text_without_separators_is_one_piece(rest, separators);
        assert(!separators.contains(s[s.len() - 1]));
        assert(rest.push(s.last()) == s);
        assert(split(s, separators) == seq![s]);
    } else {
        assert(s == Seq::<char>::empty());
    }
}

/// At a separator a text is split into the pieces before it and those behind it.
pub proof fn a_separator_splits(a: Seq<char>, c: char, b: Seq<char>, separators: Seq<char>)
    requires
        separators.contains(c),
    ensures
        split(a + seq![c] + b, separators) == split(a, separators) + split(b, separators),
    decreases b.len(),
{
    let head = a + seq![c];
    let whole = head + b;
    if b.len() == 0 {
        assert(whole.drop_last() == a);
        assert(whole.last() == c);
        assert(split(whole, separators) == split(a, separators).push(Seq::empty()));
        assert(split(b, separators) == seq![Seq::<char>::empty()]);
        assert(split(whole, separators) == split(a, separators) + split(b, separators));
    } else {
        a_separator_splits(a, c, b.drop_last(), separators);
        split_is_not_empty(b.drop_last(), separators);
        assert(whole.drop_last() == head + b.drop_last());
        assert(whole.last() == b.last());
        let before = split(a, separators);
        let inner = split(b.drop_last(), separators);
        assert((before + inner).drop_last() == before + inner.drop_last());
        assert((before + inner).last() == inner.last());
        assert(split(whole, separators) == before + split(b, separators));
    }
}

/// The contents of a list of strings are those of its strings, in order.
pub proof fn contents_keep_their_order(v: Seq<String>, i: int)
    requires
        0 <= i < v.len(),
    ensures
        views(v).len() == v.len(),
        views(v)[i] == v[i]@,
{
}

} // verus!
