//! Text helpers: concatenation, decimal numbers, trimming and splitting.

use vstd::prelude::*;
use vstd::string::StringExecFns;

verus! {

/// `String::push` appends one character at the end of the string.
pub assume_specification[ String::push ](s: &mut String, c: char)
    ensures
        final(s)@ == old(s)@.push(c),
;

/// Whether the two texts hold the same characters.
pub fn str_eq(a: &str, b: &str) -> (r: bool)
    ensures
        r == (a@ == b@),
{
    a.to_owned() == b.to_owned()
}

/// Whether the text holds no character.
pub fn text_is_empty(s: &str) -> (r: bool)
    ensures
        r == (s@.len() == 0),
{
    s.unicode_len() == 0
}

/// The characters of `s`, in order.
pub fn chars_of(s: &str) -> (r: Vec<char>)
    ensures
        r@ == s@,
{
    let mut out: Vec<char> = Vec::new();
    for c in it: s.chars()
        invariant
            out@ == it.seq().take(it.index() as int),
            it.seq() == s@,
    {
        out.push(c);
    }
    out
}

/// The text made of `chars[from..to]`.
pub fn text_of(chars: &Vec<char>, from: usize, to: usize) -> (r: String)
    requires
        from <= to <= chars@.len(),
    ensures
        r@ == chars@.subrange(from as int, to as int),
{
    let mut out = String::new();
    let mut i: usize = from;
    while i < to
        invariant
            from <= i <= to <= chars@.len(),
            out@ == chars@.subrange(from as int, i as int),
        decreases to - i,
    {
        out.push(chars[i]);
        i = i + 1;
    }
    out
}

pub fn concat2(a: &str, b: &str) -> (r: String)
    ensures
        r@ == a@ + b@,
{
    let mut out = a.to_owned();
    out.append(b);
    out
}

pub fn concat3(a: &str, b: &str, c: &str) -> (r: String)
    ensures
        r@ == a@ + b@ + c@,
{
    let mut out = a.to_owned();
    out.append(b);
    out.append(c);
    out
}

pub fn concat5(a: &str, b: &str, c: &str, d: &str, e: &str) -> (r: String)
    ensures
        r@ == a@ + b@ + c@ + d@ + e@,
{
    let mut out = concat3(a, b, c);
    out.append(d);
    out.append(e);
    out
}

// ── Decimal numbers ─────────────────────────────────────────────────────────

/// Whether `c` is one of the ten ASCII digits.
pub open spec fn is_digit(c: char) -> bool {
    '0' <= c <= '9'
}

/// The ASCII digit for `d < 10`.
pub open spec fn digit_char(d: nat) -> char {
    (('0' as nat) + d) as char
}

/// The shortest decimal notation of `n`.
pub open spec fn decimal(n: nat) -> Seq<char>
    decreases n,
{
    if n < 10 {
        seq![digit_char(n)]
    } else {
        decimal(n / 10).push(digit_char(n % 10))
    }
}

/// The number that a string of digits denotes, most significant digit first.
pub open spec fn digits_value(s: Seq<char>) -> nat
    decreases s.len(),
{
    if s.len() == 0 {
        0
    } else {
        digits_value(s.drop_last()) * 10 + (s.last() as nat - '0' as nat) as nat
    }
}

/// The notation without its one optional leading plus sign.
pub open spec fn unsigned_body(s: Seq<char>) -> Seq<char> {
    if s.len() > 0 && s[0] == '+' {
        s.skip(1)
    } else {
        s
    }
}

/// The value of an unsigned decimal number: an optional `+` and at least one
/// digit, nothing else.
pub open spec fn unsigned_value(s: Seq<char>) -> Option<nat> {
    let body = unsigned_body(s);
    if body.len() > 0 && forall|i: int| 0 <= i < body.len() ==> is_digit(#[trigger] body[i]) {
        Some(digits_value(body))
    } else {
        None
    }
}

/// `unsigned_value` where the number fits under `max`.
pub open spec fn unsigned_up_to(s: Seq<char>, max: nat) -> Option<nat> {
    match unsigned_value(s) {
        Some(v) => if v <= max {
            Some(v)
        } else {
            None
        },
        None => None,
    }
}

proof fn lemma_digits_value_prefix(s: Seq<char>, i: int)
    requires
        0 <= i <= s.len(),
        forall|k: int| 0 <= k < s.len() ==> is_digit(#[trigger] s[k]),
    ensures
        digits_value(s.take(i)) <= digits_value(s),
    decreases s.len() - i,
{
    if i == s.len() {
        assert(s.take(i) =~= s);
    } else {
        let t = s.take(i + 1);
        assert(t.drop_last() =~= s.take(i));
        assert(is_digit(s[i]));
        assert(digits_value(t) == digits_value(s.take(i)) * 10 + (s[i] as nat - '0' as nat) as nat);
        lemma_digits_value_prefix(s, i + 1);
    }
}

fn digit_char_of(d: u64) -> (c: char)
    requires
        d < 10,
    ensures
        c == digit_char(d as nat),
{
    if d == 0 {
        '0'
    } else if d == 1 {
        '1'
    } else if d == 2 {
        '2'
    } else if d == 3 {
        '3'
    } else if d == 4 {
        '4'
    } else if d == 5 {
        '5'
    } else if d == 6 {
        '6'
    } else if d == 7 {
        '7'
    } else if d == 8 {
        '8'
    } else {
        '9'
    }
}

/// The decimal notation of `n`.
pub fn decimal_text(n: u64) -> (r: String)
    ensures
        r@ == decimal(n as nat),
    decreases n,
{
    let last: char = digit_char_of(n % 10);
    if n < 10 {
        let mut out = String::new();
        out.push(last);
        assert(out@ =~= seq![digit_char(n as nat)]);
        out
    } else {
        let mut out = decimal_text(n / 10);
        out.push(last);
        out
    }
}

/// The decimal notation of `n`, led by zeros up to five characters.
pub open spec fn decimal5(n: nat) -> Seq<char> {
    let d = decimal(n);
    if d.len() >= 5 {
        d
    } else {
        Seq::new((5 - d.len()) as nat, |i: int| '0') + d
    }
}

pub fn decimal5_text(n: u64) -> (r: String)
    ensures
        r@ == decimal5(n as nat),
{
    let digits = decimal_text(n);
    let len: usize = digits.as_str().unicode_len();
    let mut out = String::new();
    let mut i: usize = len;
    while i < 5
        invariant
            len <= i,
            i <= 5 || i == len,
            out@ == Seq::new((i - len) as nat, |k: int| '0'),
        decreases 5 - i,
    {
        out.push('0');
        assert(out@ =~= Seq::new((i + 1 - len) as nat, |k: int| '0'));
        i = i + 1;
    }
    out.append(digits.as_str());
    assert(out@ =~= decimal5(n as nat));
    out
}

/// The decimal notation of `n`, led by a minus sign where it is negative.
pub open spec fn signed_decimal(n: int) -> Seq<char> {
    if n < 0 {
        "-"@ + decimal((-n) as nat)
    } else {
        decimal(n as nat)
    }
}

pub fn signed_decimal_text(n: i32) -> (r: String)
    ensures
        r@ == signed_decimal(n as int),
{
    if n < 0 {
        let m: u64 = (-(n as i64)) as u64;
        concat2("-", decimal_text(m).as_str())
    } else {
        decimal_text(n as u64)
    }
}

/// Reads an unsigned decimal number that fits in 64 bits.
pub fn parse_u64_text(s: &str) -> (r: Option<u64>)
    ensures
        match r {
            Some(v) => unsigned_up_to(s@, u64::MAX as nat) == Some(v as nat),
            None => unsigned_up_to(s@, u64::MAX as nat) is None,
        },
{
    let chars = chars_of(s);
    let start: usize = if chars.len() > 0 && chars[0] == '+' {
        1
    } else {
        0
    };
    let ghost body = unsigned_body(s@);
    proof {
        assert(body =~= chars@.skip(start as int));
    }
    if start == chars.len() {
        return None;
    }
    let mut value: u64 = 0;
    let mut i: usize = start;
    while i < chars.len()
        invariant
            start <= i <= chars@.len(),
            body == chars@.skip(start as int),
            body == unsigned_body(s@),
            body.len() > 0,
            forall|k: int| 0 <= k < i - start ==> is_digit(#[trigger] body[k]),
            value == digits_value(body.take(i - start)),
        decreases chars@.len() - i,
    {
        let c: char = chars[i];
        let ghost k: int = i - start;
        assert(body[k] == c);
        if !('0' <= c && c <= '9') {
            assert(!is_digit(body[k]));
            return None;
        }
        let d: u64 = (c as u64) - ('0' as u64);
        assert(body.take(k + 1).drop_last() =~= body.take(k));
        assert(digits_value(body.take(k + 1)) == value * 10 + d);
        match value.checked_mul(10) {
            None => {
                proof {
                    if forall|j: int| 0 <= j < body.len() ==> is_digit(#[trigger] body[j]) {
                        lemma_digits_value_prefix(body, k + 1);
                    }
                }
                return None;
            },
            Some(tens) => {
                match tens.checked_add(d) {
                    None => {
                        proof {
                            if forall|j: int|
                                0 <= j < body.len() ==> is_digit(#[trigger] body[j]) {
                                lemma_digits_value_prefix(body, k + 1);
                            }
                        }
                        return None;
                    },
                    Some(next) => {
                        value = next;
                    },
                }
            },
        }
        i = i + 1;
    }
    assert(body.take(i - start) =~= body);
    Some(value)
}

/// Reads an unsigned decimal number that fits in a machine word.
pub fn parse_usize_text(s: &str) -> (r: Option<usize>)
    ensures
        match r {
            Some(v) => unsigned_up_to(s@, usize::MAX as nat) == Some(v as nat),
            None => unsigned_up_to(s@, usize::MAX as nat) is None,
        },
{
    match parse_u64_text(s) {
        Some(v) => {
            if v <= usize::MAX as u64 {
                Some(v as usize)
            } else {
                None
            }
        },
        None => None,
    }
}

/// Reads an unsigned decimal number that fits in one byte.
pub fn parse_u8_text(s: &str) -> (r: Option<u8>)
    ensures
        match r {
            Some(v) => unsigned_up_to(s@, 255) == Some(v as nat),
            None => unsigned_up_to(s@, 255) is None,
        },
{
    match parse_u64_text(s) {
        Some(v) => {
            if v <= 255 {
                Some(v as u8)
            } else {
                None
            }
        },
        None => None,
    }
}

proof fn lemma_decimal_digits(n: nat)
    ensures
        decimal(n).len() > 0,
        forall|i: int| 0 <= i < decimal(n).len() ==> is_digit(#[trigger] decimal(n)[i]),
        digits_value(decimal(n)) == n,
    decreases n,
{
    if n < 10 {
        assert(decimal(n).drop_last() =~= Seq::empty());
        assert(digits_value(Seq::empty()) == 0);
        assert(decimal(n).last() == digit_char(n));
    } else {
        lemma_decimal_digits(n / 10);
        assert(decimal(n).drop_last() =~= decimal(n / 10));
        assert(decimal(n).last() == digit_char(n % 10));
    }
}

/// Reading back the decimal notation of a number gives the number.
pub proof fn law_decimal_round_trip(n: nat)
    ensures
        unsigned_value(decimal(n)) == Some(n),
{
    lemma_decimal_digits(n);
    assert(is_digit(decimal(n)[0]));
    assert(unsigned_body(decimal(n)) == decimal(n));
}

/// Two numbers with the same decimal notation are the same number.
pub proof fn law_decimal_injective(a: nat, b: nat)
    requires
        decimal(a) == decimal(b),
    ensures
        a == b,
{
    lemma_decimal_digits(a);
    lemma_decimal_digits(b);
}

proof fn lemma_leading_zeros(z: nat, s: Seq<char>)
    ensures
        digits_value(Seq::new(z, |i: int| '0') + s) == digits_value(s),
    decreases s.len(), z,
{
    let zeros = Seq::new(z, |i: int| '0');
    let all = zeros + s;
    if s.len() > 0 {
        assert(all.drop_last() =~= zeros + s.drop_last());
        assert(all.last() == s.last());
        lemma_leading_zeros(z, s.drop_last());
    } else if z > 0 {
        let fewer = Seq::new((z - 1) as nat, |i: int| '0');
        assert(all.drop_last() =~= fewer + s);
        assert(all.last() == '0');
        lemma_leading_zeros((z - 1) as nat, s);
    } else {
        assert(all =~= s);
    }
}

/// Two numbers with the same five-character notation are the same number.
pub proof fn law_decimal5_injective(a: nat, b: nat)
    requires
        decimal5(a) == decimal5(b),
    ensures
        a == b,
{
    lemma_decimal_digits(a);
    lemma_decimal_digits(b);
    if decimal(a).len() < 5 {
        lemma_leading_zeros((5 - decimal(a).len()) as nat, decimal(a));
    }
    if decimal(b).len() < 5 {
        lemma_leading_zeros((5 - decimal(b).len()) as nat, decimal(b));
    }
}

// ── Trimming and splitting ──────────────────────────────────────────────────

/// The characters that separate words: those with the Unicode property
/// `White_Space`.
pub open spec fn is_white(c: char) -> bool {
    let u = c as u32;
    ||| 0x9 <= u <= 0xD
    ||| u == 0x20
    ||| u == 0x85
    ||| u == 0xA0
    ||| u == 0x1680
    ||| 0x2000 <= u <= 0x200A
    ||| u == 0x2028
    ||| u == 0x2029
    ||| u == 0x202F
    ||| u == 0x205F
    ||| u == 0x3000
}

pub fn is_whitespace(c: char) -> (r: bool)
    ensures
        r == is_white(c),
{
    let u: u32 = c as u32;
    (0x9 <= u && u <= 0xD) || u == 0x20 || u == 0x85 || u == 0xA0 || u == 0x1680 || (0x2000 <= u
        && u <= 0x200A) || u == 0x2028 || u == 0x2029 || u == 0x202F || u == 0x205F || u == 0x3000
}

/// `s` without the white space at its start.
pub open spec fn trim_start(s: Seq<char>) -> Seq<char>
    decreases s.len(),
{
    if s.len() > 0 && is_white(s[0]) {
        trim_start(s.skip(1))
    } else {
        s
    }
}

/// `s` without the white space at its end.
pub open spec fn trim_end(s: Seq<char>) -> Seq<char>
    decreases s.len(),
{
    if s.len() > 0 && is_white(s.last()) {
        trim_end(s.drop_last())
    } else {
        s
    }
}

/// `s` without the white space at both its ends.
pub open spec fn trim(s: Seq<char>) -> Seq<char> {
    trim_end(trim_start(s))
}

/// `chars` without the white space at both its ends, as a text.
pub fn trimmed_text(chars: &Vec<char>) -> (r: String)
    ensures
        r@ == trim(chars@),
{
    let mut a: usize = 0;
    assert(chars@.skip(0) =~= chars@);
    while a < chars.len() && is_whitespace(chars[a])
        invariant
            a <= chars@.len(),
            trim_start(chars@) == trim_start(chars@.skip(a as int)),
        decreases chars@.len() - a,
    {
        assert(chars@.skip(a as int)[0] == chars@[a as int]);
        assert(chars@.skip(a as int).skip(1) =~= chars@.skip(a + 1));
        a = a + 1;
    }
    proof {
        if a < chars@.len() {
            assert(chars@.skip(a as int)[0] == chars@[a as int]);
        }
        assert(trim_start(chars@) == chars@.skip(a as int));
    }
    let mut b: usize = chars.len();
    assert(chars@.subrange(a as int, b as int) =~= chars@.skip(a as int));
    while a < b && is_whitespace(chars[b - 1])
        invariant
            a <= b <= chars@.len(),
            trim(chars@) == trim_end(chars@.subrange(a as int, b as int)),
        decreases b,
    {
        let ghost t = chars@.subrange(a as int, b as int);
        assert(t.last() == chars@[b - 1]);
        assert(t.drop_last() =~= chars@.subrange(a as int, b - 1));
        b = b - 1;
    }
    proof {
        let t = chars@.subrange(a as int, b as int);
        if a < b {
            assert(t.last() == chars@[b - 1]);
        }
        assert(trim_end(t) == t);
    }
    text_of(chars, a, b)
}

/// The pieces of `s` between the separators: one more than there are
/// separators.
pub open spec fn pieces(s: Seq<char>, sep: char) -> Seq<Seq<char>>
    decreases s.len(),
{
    if s.len() == 0 {
        seq![Seq::empty()]
    } else {
        let before = pieces(s.drop_last(), sep);
        if s.last() == sep {
            before.push(Seq::empty())
        } else {
            before.drop_last().push(before.last().push(s.last()))
        }
    }
}

/// The texts that a vector of strings holds.
pub open spec fn texts(v: Seq<String>) -> Seq<Seq<char>> {
    v.map_values(|s: String| s@)
}

/// The trimmed pieces of `s` between the separators.
pub open spec fn trimmed_pieces(s: Seq<char>, sep: char) -> Seq<Seq<char>> {
    pieces(s, sep).map_values(|p: Seq<char>| trim(p))
}

/// Splits `s` at every separator and trims each piece.
pub fn split_trimmed(s: &str, sep: char) -> (r: Vec<String>)
    ensures
        texts(r@) == trimmed_pieces(s@, sep),
{
    let chars = chars_of(s);
    let mut out: Vec<String> = Vec::new();
    let mut cur: Vec<char> = Vec::new();
    let mut i: usize = 0;
    let ghost f = |p: Seq<char>| trim(p);
    assert(chars@.take(0) =~= Seq::empty());
    while i < chars.len()
        invariant
            i <= chars@.len(),
            pieces(chars@.take(i as int), sep).len() > 0,
            texts(out@) =~= pieces(chars@.take(i as int), sep).drop_last().map_values(f),
            cur@ == pieces(chars@.take(i as int), sep).last(),
            f == (|p: Seq<char>| trim(p)),
        decreases chars@.len() - i,
    {
        let ghost before = pieces(chars@.take(i as int), sep);
        let ghost out0 = out@;
        proof {
            assert(chars@.take(i + 1).drop_last() =~= chars@.take(i as int));
            assert(chars@.take(i + 1).last() == chars@[i as int]);
        }
        let c: char = chars[i];
        if c == sep {
            out.push(trimmed_text(&cur));
            cur = Vec::new();
            proof {
                let after = pieces(chars@.take(i + 1), sep);
                assert(after == before.push(Seq::empty()));
                assert(after.drop_last() =~= before);
                assert(texts(out@) =~= texts(out0).push(trim(before.last())));
                assert(before =~= before.drop_last().push(before.last()));
                assert(before.map_values(f) =~= before.drop_last().map_values(f).push(
                    trim(before.last()),
                ));
                assert(cur@ =~= Seq::empty());
            }
        } else {
            cur.push(c);
            proof {
                let after = pieces(chars@.take(i + 1), sep);
                assert(after.drop_last() =~= before.drop_last());
            }
        }
        i = i + 1;
    }
    let ghost out0 = out@;
    let ghost all = pieces(chars@, sep);
    assert(chars@.take(i as int) =~= chars@);
    out.push(trimmed_text(&cur));
    proof {
        assert(texts(out@) =~= texts(out0).push(trim(all.last())));
        assert(all =~= all.drop_last().push(all.last()));
        assert(all.map_values(f) =~= all.drop_last().map_values(f).push(trim(all.last())));
    }
    out
}

// ── What texts say ──────────────────────────────────────────────────────────

/// Appending a digit to a number's text multiplies the number by ten and adds
/// the digit; a single digit is its own text.
pub proof fn law_decimal_digits_weigh_ten(n: nat, d: nat)
    requires
        d < 10,
    ensures
        decimal(d) == seq![('0' as nat + d) as char],
        n > 0 ==> decimal(10 * n + d) == decimal(n).push(('0' as nat + d) as char),
{
    if n > 0 {
        assert((10 * n + d) / 10 == n && (10 * n + d) % 10 == d);
    }
}

/// A text's number grows by a digit in the same way, and a digit alone is its
/// own number.
pub proof fn law_numbers_are_read_digit_by_digit(s: Seq<char>, c: char)
    requires
        '0' <= c <= '9',
    ensures
        unsigned_value(s) is Some ==> unsigned_value(s.push(c)) == Some(
            (10 * unsigned_value(s).unwrap() + (c as nat - '0' as nat)) as nat,
        ),
        unsigned_value(seq![c]) == Some((c as nat - '0' as nat) as nat),
{
    let body = unsigned_body(s);
    if unsigned_value(s) is Some {
        lemma_body_grows(s, c);
        let more = body.push(c);
        assert forall|i: int| 0 <= i < more.len() implies is_digit(#[trigger] more[i]) by {
            if i < body.len() {
                assert(is_digit(body[i]));
            }
        }
        assert(more.drop_last() =~= body);
    }
    assert(unsigned_body(seq![c]) == seq![c]);
    assert(seq![c].drop_last() =~= Seq::<char>::empty());
    assert(digits_value(Seq::<char>::empty()) == 0);
    assert(digits_value(seq![c]) == 0 * 10 + (c as nat - '0' as nat) as nat);
}

proof fn lemma_body_grows(s: Seq<char>, c: char)
    requires
        s.len() > 0,
    ensures
        unsigned_body(s.push(c)) == unsigned_body(s).push(c),
{
    assert(unsigned_body(s.push(c)) =~= unsigned_body(s).push(c));
}

/// A character that is no digit spoils a number, and nothing mends one.
pub proof fn law_other_characters_spoil_a_number(s: Seq<char>, c: char)
    requires
        s.len() > 0,
    ensures
        !('0' <= c <= '9') ==> unsigned_value(s.push(c)) is None,
        s != seq!['+'] && unsigned_value(s) is None ==> unsigned_value(s.push(c)) is None,
{
    let body = unsigned_body(s);
    let more = body.push(c);
    lemma_body_grows(s, c);
    if !is_digit(c) {
        assert(more[body.len() as int] == c);
    }
    if s != seq!['+'] && unsigned_value(s) is None {
        if body.len() == 0 {
            assert(s =~= seq!['+']);
        }
        let i = choose|i: int| 0 <= i < body.len() && !is_digit(#[trigger] body[i]);
        assert(more[i] == body[i]);
    }
}

/// A leading plus sign does not count, but a number needs a digit.
pub proof fn law_leading_plus_signs(s: Seq<char>)
    ensures
        s.len() > 0 && s[0] != '+' ==> unsigned_value(seq!['+'] + s) == unsigned_value(s),
        unsigned_value(Seq::<char>::empty()) is None,
        unsigned_value(seq!['+']) is None,
{
    assert((seq!['+'] + s).skip(1) =~= s);
    assert(seq!['+'].skip(1) =~= Seq::<char>::empty());
}

/// A bounded reading gives the number exactly where it does not exceed the
/// bound.
pub proof fn law_bounded_readings(s: Seq<char>, max: nat, v: nat)
    ensures
        unsigned_up_to(s, max) == Some(v) <==> unsigned_value(s) == Some(v) && v <= max,
{
}

/// A five-digit text reads as its number and is longer than five characters only
/// where the number is.
pub proof fn law_decimal5_reads_back(n: nat)
    ensures
        unsigned_value(decimal5(n)) == Some(n),
        decimal5(n).len() >= 5,
        decimal(n).len() <= 5 ==> decimal5(n).len() == 5,
        decimal(n).len() >= 5 ==> decimal5(n) == decimal(n),
{
    lemma_decimal_digits(n);
    let d = decimal(n);
    let s = decimal5(n);
    if d.len() < 5 {
        lemma_leading_zeros((5 - d.len()) as nat, d);
    }
    assert forall|i: int| 0 <= i < s.len() implies is_digit(#[trigger] s[i]) by {
        if d.len() < 5 && i >= 5 - d.len() {
            assert(s[i] == d[i - (5 - d.len())]);
        }
    }
    assert(is_digit(s[0]));
    assert(unsigned_body(s) == s);
}

/// A negative number's text is that of its opposite behind a minus sign; no
/// other text starts with one.
pub proof fn law_minus_signs(n: int)
    ensures
        n > 0 ==> signed_decimal(-n) == "-"@ + signed_decimal(n),
        n >= 0 ==> signed_decimal(n) == decimal(n as nat) && signed_decimal(n)[0] != '-',
{
    if n >= 0 {
        lemma_decimal_digits(n as nat);
        assert(is_digit(decimal(n as nat)[0]));
    }
}

/// Trimming takes away white space at both ends and nothing else. The returned
/// numbers say where the trimmed text starts and ends.
pub proof fn law_trim_takes_white_space(s: Seq<char>) -> (ends: (int, int))
    ensures
        0 <= ends.0 <= ends.1 <= s.len(),
        trim(s) == s.subrange(ends.0, ends.1),
        forall|i: int| 0 <= i < ends.0 ==> is_white(#[trigger] s[i]),
        forall|i: int| ends.1 <= i < s.len() ==> is_white(#[trigger] s[i]),
        trim(s).len() > 0 ==> !is_white(trim(s)[0]) && !is_white(trim(s).last()),
{
    let a = lemma_trim_start(s);
    let t = trim_start(s);
    let b = lemma_trim_end(t);
    assert(t.take(b) =~= s.subrange(a, a + b));
    assert forall|i: int| a + b <= i < s.len() implies is_white(#[trigger] s[i]) by {
        assert(t[i - a] == s[i]);
    }
    (a, a + b)
}

proof fn lemma_trim_start(s: Seq<char>) -> (a: int)
    ensures
        0 <= a <= s.len(),
        trim_start(s) == s.skip(a),
        forall|i: int| 0 <= i < a ==> is_white(#[trigger] s[i]),
        trim_start(s).len() > 0 ==> !is_white(trim_start(s)[0]),
    decreases s.len(),
{
    if s.len() > 0 && is_white(s[0]) {
        let t = s.skip(1);
        let a = lemma_trim_start(t);
        assert(t.skip(a) =~= s.skip(a + 1));
        assert forall|i: int| 0 <= i < a + 1 implies is_white(#[trigger] s[i]) by {
            if i > 0 {
                assert(t[i - 1] == s[i]);
            }
        }
        a + 1
    } else {
        assert(s.skip(0) =~= s);
        0
    }
}

proof fn lemma_trim_end(s: Seq<char>) -> (b: int)
    ensures
        0 <= b <= s.len(),
        trim_end(s) == s.take(b),
        forall|i: int| b <= i < s.len() ==> is_white(#[trigger] s[i]),
        trim_end(s).len() > 0 ==> !is_white(trim_end(s).last()),
    decreases s.len(),
{
    if s.len() > 0 && is_white(s.last()) {
        let t = s.drop_last();
        let b = lemma_trim_end(t);
        assert(t.take(b) =~= s.take(b));
        assert forall|i: int| b <= i < s.len() implies is_white(#[trigger] s[i]) by {
            if i < t.len() {
                assert(t[i] == s[i]);
            }
        }
        b
    } else {
        assert(s.take(s.len() as int) =~= s);
        s.len() as int
    }
}

/// Texts with a separator between each two.
pub open spec fn separated(parts: Seq<Seq<char>>, sep: char) -> Seq<char>
    decreases parts.len(),
{
    if parts.len() == 0 {
        Seq::empty()
    } else if parts.len() == 1 {
        parts[0]
    } else {
        separated(parts.drop_last(), sep).push(sep) + parts.last()
    }
}

/// A further part stands behind the others and a separator.
pub proof fn law_a_further_part(parts: Seq<Seq<char>>, part: Seq<char>, sep: char)
    requires
        parts.len() > 0,
    ensures
        separated(parts.push(part), sep) == separated(parts, sep).push(sep) + part,
{
    assert(parts.push(part).drop_last() =~= parts);
}

/// No piece holds the separator, and the pieces with it between them are the
/// text.
pub proof fn law_pieces_make_up_the_text(s: Seq<char>, sep: char)
    ensures
        pieces(s, sep).len() > 0,
        forall|i: int, j: int|
            0 <= i < pieces(s, sep).len() && 0 <= j < pieces(s, sep)[i].len() ==> (
            #[trigger] pieces(s, sep)[i][j]) != sep,
        separated(pieces(s, sep), sep) == s,
    decreases s.len(),
{
    let all = pieces(s, sep);
    if s.len() == 0 {
        assert(separated(all, sep) =~= s);
    } else {
        let rest = s.drop_last();
        law_pieces_make_up_the_text(rest, sep);
        let before = pieces(rest, sep);
        if s.last() == sep {
            assert(all.drop_last() =~= before);
            assert(separated(all, sep) =~= rest.push(sep) + Seq::empty());
            assert(rest.push(sep) + Seq::empty() =~= s);
            assert forall|i: int, j: int| 0 <= i < all.len() && 0 <= j < all[i].len() implies (
            #[trigger] all[i][j]) != sep by {
                assert(i < before.len());
                assert(all[i] == before[i]);
                assert(before[i][j] != sep);
            }
        } else {
            assert(all.drop_last() =~= before.drop_last());
            assert(all.last() == before.last().push(s.last()));
            assert(all.len() == before.len());
            if all.len() == 1 {
                assert(separated(all, sep) =~= rest.push(s.last()));
            } else {
                assert(separated(all, sep) =~= separated(before, sep).push(s.last()));
            }
            assert(rest.push(s.last()) =~= s);
            assert forall|i: int, j: int| 0 <= i < all.len() && 0 <= j < all[i].len() implies (
            #[trigger] all[i][j]) != sep by {
                if i < all.len() - 1 {
                    assert(all[i] == before[i]);
                    assert(before[i][j] != sep);
                } else if j < before.last().len() {
                    assert(before[i][j] != sep);
                }
            }
        }
    }
}

/// The trimmed pieces are the pieces, each trimmed.
pub proof fn law_pieces_are_trimmed(s: Seq<char>, sep: char, i: int)
    requires
        0 <= i < pieces(s, sep).len(),
    ensures
        trimmed_pieces(s, sep).len() == pieces(s, sep).len(),
        trimmed_pieces(s, sep)[i] == trim(pieces(s, sep)[i]),
{
}

} // verus!
