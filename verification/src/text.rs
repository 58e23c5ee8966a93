use vstd::prelude::*;

verus! {

/// Appends one character to a string: `String::push` of std.
///
/// Trusted: claims that the string afterwards is the old one followed by `c`,
/// as std's documentation of `String::push` says.
#[verifier::external_body]
pub(crate) fn push_char(s: &mut String, c: char)
    ensures
        final(s)@ == old(s)@.push(c),
{
    s.push(c);
}

/// The ASCII digit for `d < 10`.
pub open spec fn digit_char(d: nat) -> char {
    (48 + d) as char
}

/// Decimal notation of a natural number, most significant digit first,
/// with no leading zeros.
pub open spec fn decimal(n: nat) -> Seq<char>
    decreases n,
{
    if n < 10 {
        seq![digit_char(n)]
    } else {
        decimal(n / 10).push(digit_char(n % 10))
    }
}

/// A decimal notation has at least one digit.
pub proof fn lemma_decimal_nonempty(n: nat)
    ensures
        decimal(n).len() >= 1,
    decreases n,
{
    if n >= 10 {
        lemma_decimal_nonempty(n / 10);
    }
}

/// Decimal notation of an integer, with a leading `-` when it is negative.
pub open spec fn signed_decimal(i: int) -> Seq<char> {
    if i < 0 {
        seq!['-'] + decimal((-i) as nat)
    } else {
        decimal(i as nat)
    }
}

/// Appends the decimal notation of `n`.
pub fn push_decimal(out: &mut String, n: u128)
    ensures
        final(out)@ == old(out)@ + decimal(n as nat),
    decreases n,
{
    if n < 10 {
        let c = ((48u8 + n as u8) as char);
        push_char(out, c);
    } else {
        push_decimal(out, n / 10);
        let d = (n % 10) as u8;
        let c = ((48u8 + d) as char);
        push_char(out, c);
        assert(decimal(n as nat) == decimal((n / 10) as nat).push(digit_char((n % 10) as nat)));
    }
}

/// The decimal notation of a signed integer, as `to_string` writes it.
pub fn fmt_i128(n: i128) -> (r: String)
    ensures
        r@ == signed_decimal(n as int),
{
    let mut s = String::new();
    if n < 0 {
        push_char(&mut s, '-');
        let m: u128 = if n == i128::MIN {
            170141183460469231731687303715884105728u128
        } else {
            (-n) as u128
        };
        push_decimal(&mut s, m);
    } else {
        push_decimal(&mut s, n as u128);
    }
    s
}

/// The lowercase hexadecimal digit for a nibble.
pub open spec fn hex_digit(n: nat) -> char {
    if n < 10 {
        (48 + n) as char
    } else {
        (87 + n) as char
    }
}

/// Two lowercase hexadecimal digits per byte, high nibble first.
pub open spec fn hex_string(bytes: Seq<u8>) -> Seq<char>
    decreases bytes.len(),
{
    if bytes.len() == 0 {
        Seq::empty()
    } else {
        hex_string(bytes.drop_last()) + seq![
            hex_digit((bytes.last() / 16) as nat),
            hex_digit((bytes.last() % 16) as nat),
        ]
    }
}

fn hex_digit_exec(n: u8) -> (c: char)
    requires
        n < 16,
    ensures
        c == hex_digit(n as nat),
{
    if n < 10 {
        (48u8 + n) as char
    } else {
        (87u8 + n) as char
    }
}

/// Renders bytes as lowercase hexadecimal, two digits per byte.
pub fn hex(bytes: &[u8]) -> (r: String)
    ensures
        r@ == hex_string(bytes@),
{
    let mut out = String::new();
    let mut i: usize = 0;
    while i < bytes.len()
        invariant
            i <= bytes.len(),
            out@ == hex_string(bytes@.take(i as int)),
        decreases bytes.len() - i,
    {
        let b = bytes[i];
        push_char(&mut out, hex_digit_exec(b / 16));
        push_char(&mut out, hex_digit_exec(b % 16));
        proof {
            let t = bytes@.take(i + 1);
            assert(t.drop_last() =~= bytes@.take(i as int));
            assert(t.last() == b);
        }
        i = i + 1;
    }
    assert(bytes@.take(bytes.len() as int) =~= bytes@);
    out
}

} // verus!

verus! {

/// Rust's `Debug` rendering of a string (`format!("{:?}", s)`): the text in
/// double quotes, with quotes, backslashes and non-printable characters
/// escaped.
pub uninterp spec fn str_debug(s: Seq<char>) -> Seq<char>;

/// A character that `Debug` writes as itself inside a string: printable
/// ASCII other than the double quote and the backslash.
pub open spec fn debug_plain_char(c: char) -> bool {
    ' ' <= c <= '~' && c != '"' && c != '\\'
}

/// `format!("{:?}", s)` of std.
///
/// Trusted: the result is named `str_debug(s)`; for text made only of
/// printable ASCII other than `"` and `\`, std's documented escaping leaves
/// every character as it is, so the result is the text in double quotes.
/// Of other text nothing more is claimed.
#[verifier::external_body]
pub(crate) fn debug_str(s: &str) -> (r: String)
    ensures
        r@ == str_debug(s@),
        (forall|i: int| 0 <= i < s@.len() ==> debug_plain_char(#[trigger] s@[i])) ==> r@ == seq![
            '"',
        ] + s@ + seq!['"'],
{
    format!("{:?}", s)
}

} // verus!

verus! {

/// A character with the Unicode `White_Space` property, as
/// `char::is_whitespace` documents the set.
pub open spec fn is_whitespace(c: char) -> bool {
    ||| ('\t' <= c && c <= '\r')
    ||| c == ' '
    ||| c == '\u{85}'
    ||| c == '\u{a0}'
    ||| c == '\u{1680}'
    ||| ('\u{2000}' <= c && c <= '\u{200a}')
    ||| c == '\u{2028}'
    ||| c == '\u{2029}'
    ||| c == '\u{202f}'
    ||| c == '\u{205f}'
    ||| c == '\u{3000}'
}

/// `s` without its leading whitespace.
pub open spec fn trim_start(s: Seq<char>) -> Seq<char>
    decreases s.len(),
{
    if s.len() > 0 && is_whitespace(s[0]) {
        trim_start(s.drop_first())
    } else {
        s
    }
}

/// `s` without its trailing whitespace.
pub open spec fn trim_end(s: Seq<char>) -> Seq<char>
    decreases s.len(),
{
    if s.len() > 0 && is_whitespace(s.last()) {
        trim_end(s.drop_last())
    } else {
        s
    }
}

/// `s` without leading and trailing whitespace (`str::trim`).
pub open spec fn trim(s: Seq<char>) -> Seq<char> {
    trim_end(trim_start(s))
}

fn is_whitespace_exec(c: char) -> (r: bool)
    ensures
        r == is_whitespace(c),
{
    ('\t' <= c && c <= '\r') || c == ' ' || c == '\u{85}' || c == '\u{a0}' || c == '\u{1680}' || (
    '\u{2000}' <= c && c <= '\u{200a}') || c == '\u{2028}' || c == '\u{2029}' || c == '\u{202f}'
        || c == '\u{205f}' || c == '\u{3000}'
}

/// The characters of a string.
pub fn chars_of(s: &str) -> (r: Vec<char>)
    ensures
        r@ == s@,
{
    let n = s.unicode_len();
    let mut r: Vec<char> = Vec::new();
    let mut i: usize = 0;
    while i < n
        invariant
            i <= n,
            n == s@.len(),
            r@ == s@.take(i as int),
        decreases n - i,
    {
        r.push(s.get_char(i));
        proof {
            assert(s@.take(i + 1) =~= s@.take(i as int).push(s@[i as int]));
        }
        i = i + 1;
    }
    assert(s@.take(n as int) =~= s@);
    r
}

/// The bounds of `trim(s)` within `s`.
pub fn trim_bounds(s: &Vec<char>) -> (r: (usize, usize))
    ensures
        r.0 <= r.1 <= s@.len(),
        s@.subrange(r.0 as int, r.1 as int) == trim(s@),
{
    let mut a: usize = 0;
    assert(s@.skip(0) =~= s@);
    while a < s.len() && is_whitespace_exec(s[a])
        invariant
            a <= s@.len(),
            trim_start(s@) == trim_start(s@.skip(a as int)),
        decreases s.len() - a,
    {
        proof {
            assert(s@.skip(a as int)[0] == s@[a as int]);
            assert(s@.skip(a as int).drop_first() =~= s@.skip(a + 1));
        }
        a = a + 1;
    }
    proof {
        if a < s.len() {
            assert(s@.skip(a as int)[0] == s@[a as int]);
        }
        assert(trim_start(s@) == s@.skip(a as int));
    }
    let mut b: usize = s.len();
    assert(s@.skip(a as int) =~= s@.subrange(a as int, b as int));
    while b > a && is_whitespace_exec(s[b - 1])
        invariant
            a <= b <= s@.len(),
            trim(s@) == trim_end(s@.subrange(a as int, b as int)),
        decreases b,
    {
        proof {
            let t = s@.subrange(a as int, b as int);
            assert(t.last() == s@[b - 1]);
            assert(t.drop_last() =~= s@.subrange(a as int, b - 1));
        }
        b = b - 1;
    }
    proof {
        let t = s@.subrange(a as int, b as int);
        if b > a {
            assert(t.last() == s@[b - 1]);
        }
    }
    (a, b)
}

/// The value of an ASCII digit in the given radix (`char::to_digit`).
pub open spec fn digit_value(c: char, radix: nat) -> Option<nat> {
    let v: int = if '0' <= c && c <= '9' {
        c as int - 48
    } else if 'a' <= c && c <= 'z' {
        c as int - 87
    } else if 'A' <= c && c <= 'Z' {
        c as int - 55
    } else {
        radix as int
    };
    if 0 <= v < radix {
        Some(v as nat)
    } else {
        None
    }
}

/// The value of a string of digits, most significant first (`None` when a
/// character is not a digit).
pub open spec fn digits_value(ds: Seq<char>, radix: nat) -> Option<nat>
    decreases ds.len(),
{
    if ds.len() == 0 {
        Some(0)
    } else {
        match (digits_value(ds.drop_last(), radix), digit_value(ds.last(), radix)) {
            (Some(v), Some(d)) => Some(v * radix + d),
            _ => None,
        }
    }
}

/// `i128::from_str_radix(s, radix)`: an optional sign, then at least one
/// digit, the value within the range of `i128`.
pub open spec fn parse_i128(s: Seq<char>, radix: nat) -> Option<int> {
    if s.len() == 0 {
        None
    } else if (s[0] == '+' || s[0] == '-') && s.len() == 1 {
        None
    } else {
        let neg = s[0] == '-';
        let ds = if s[0] == '+' || s[0] == '-' {
            s.drop_first()
        } else {
            s
        };
        match digits_value(ds, radix) {
            None => None,
            Some(v) => {
                let x: int = if neg {
                    -v
                } else {
                    v as int
                };
                if i128::MIN <= x <= i128::MAX {
                    Some(x)
                } else {
                    None
                }
            },
        }
    }
}

proof fn lemma_digits_grow(ds: Seq<char>, radix: nat, i: int)
    requires
        2 <= radix,
        0 <= i <= ds.len(),
        digits_value(ds.take(i), radix) is Some,
        digits_value(ds, radix) is Some,
    ensures
        digits_value(ds, radix)->0 >= digits_value(ds.take(i), radix)->0,
    decreases ds.len() - i,
{
    if i < ds.len() {
        let t = ds.take(i + 1);
        assert(t.drop_last() =~= ds.take(i));
        lemma_digits_prefix_some(ds, radix, i + 1);
        lemma_digits_grow(ds, radix, i + 1);
        let a = digits_value(ds.take(i), radix)->0;
        let d = digit_value(t.last(), radix)->0;
        assert(a * radix + d >= a) by (nonlinear_arith)
            requires
                radix >= 2,
                d >= 0,
                a >= 0,
        ;
    } else {
        assert(ds.take(i) =~= ds);
    }
}

proof fn lemma_digits_prefix_some(ds: Seq<char>, radix: nat, i: int)
    requires
        0 <= i <= ds.len(),
        digits_value(ds, radix) is Some,
    ensures
        digits_value(ds.take(i), radix) is Some,
    decreases ds.len() - i,
{
    if i < ds.len() {
        lemma_digits_prefix_some(ds, radix, i + 1);
        let t = ds.take(i + 1);
        assert(t.drop_last() =~= ds.take(i));
    } else {
        assert(ds.take(i) =~= ds);
    }
}

fn digit_value_exec(c: char, radix: u32) -> (r: Option<u32>)
    requires
        2 <= radix <= 36,
    ensures
        r matches Some(d) ==> digit_value(c, radix as nat) == Some(d as nat),
        r is None ==> digit_value(c, radix as nat) is None,
{
    let v: u32 = if '0' <= c && c <= '9' {
        (c as u32) - 48
    } else if 'a' <= c && c <= 'z' {
        (c as u32) - 87
    } else if 'A' <= c && c <= 'Z' {
        (c as u32) - 55
    } else {
        radix
    };
    if v < radix {
        Some(v)
    } else {
        None
    }
}

/// `i128::from_str_radix(s, radix)` of std, on the characters of `s`.
#[verifier::loop_isolation(false)]
pub fn parse_i128_exec(s: &Vec<char>, start: usize, end: usize, radix: u32) -> (r: Option<i128>)
    requires
        start <= end <= s@.len(),
        2 <= radix <= 36,
    ensures
        r matches Some(x) ==> parse_i128(s@.subrange(start as int, end as int), radix as nat) == Some(x as int),
        r is None ==> parse_i128(s@.subrange(start as int, end as int), radix as nat) is None,
{
    let ghost t = s@.subrange(start as int, end as int);
    if start == end {
        return None;
    }
    let c0 = s[start];
    let signed = c0 == '+' || c0 == '-';
    if signed && end - start == 1 {
        return None;
    }
    let neg = c0 == '-';
    let ds_start = if signed { start + 1 } else { start };
    let ghost ds = s@.subrange(ds_start as int, end as int);
    proof {
        assert(t[0] == c0);
        if signed {
            assert(t.drop_first() =~= ds);
        } else {
            assert(t =~= ds);
        }
    }
    let mut acc: u128 = 0;
    let mut i: usize = ds_start;
    assert(ds.take(0) =~= Seq::<char>::empty());
    while i < end
        invariant
            ds_start <= i <= end <= s@.len(),
            ds == s@.subrange(ds_start as int, end as int),
            2 <= radix <= 36,
            digits_value(ds.take(i - ds_start), radix as nat) == Some(acc as nat),
        decreases end - i,
    {
        let ghost j = i - ds_start;
        let ghost tk = ds.take(j + 1);
        proof {
            assert(tk.drop_last() =~= ds.take(j));
            assert(tk.last() == s@[i as int]);
        }
        match digit_value_exec(s[i], radix) {
            None => {
                proof {
                    assert(digits_value(tk, radix as nat) is None);
                    if digits_value(ds, radix as nat) is Some {
                        lemma_digits_prefix_some(ds, radix as nat, j + 1);
                    }
                }
                return None;
            },
            Some(d) => {
                assert(digits_value(tk, radix as nat) == Some((acc * radix + d) as nat));
                match acc.checked_mul(radix as u128) {
                    None => {
                        proof {
                            if digits_value(ds, radix as nat) is Some {
                                lemma_digits_prefix_some(ds, radix as nat, j + 1);
                                lemma_digits_grow(ds, radix as nat, j + 1);
                            }
                        }
                        return None;
                    },
                    Some(m) => match m.checked_add(d as u128) {
                        None => {
                            proof {
                                if digits_value(ds, radix as nat) is Some {
                                    lemma_digits_prefix_some(ds, radix as nat, j + 1);
                                    lemma_digits_grow(ds, radix as nat, j + 1);
                                }
                            }
                            return None;
                        },
                        Some(a) => {
                            acc = a;
                        },
                    },
                }
            },
        }
        i = i + 1;
    }
    proof {
        assert(ds.take(end - ds_start) =~= ds);
    }
    if neg {
        if acc <= 170141183460469231731687303715884105728u128 {
            if acc == 170141183460469231731687303715884105728u128 {
                Some(i128::MIN)
            } else {
                Some(-(acc as i128))
            }
        } else {
            None
        }
    } else {
        if acc <= 170141183460469231731687303715884105727u128 {
            Some(acc as i128)
        } else {
            None
        }
    }
}

/// Why `parse_i128` of `s` fails, in the words of std's `ParseIntError`:
/// an empty string; a sign alone or a character that is not a digit; or a
/// value beyond the range of `i128`, whichever the digits, read from the
/// left, come to first.
pub open spec fn parse_int_error(s: Seq<char>, radix: nat) -> Seq<char> {
    if s.len() == 0 {
        "cannot parse integer from empty string"@
    } else if (s[0] == '+' || s[0] == '-') && s.len() == 1 {
        "invalid digit found in string"@
    } else {
        let neg = s[0] == '-';
        let ds = if s[0] == '+' || s[0] == '-' {
            s.drop_first()
        } else {
            s
        };
        int_error_from(ds, radix, neg, 0, 0)
    }
}

/// The largest magnitude an `i128` of the given sign holds.
pub open spec fn int_limit(neg: bool) -> nat {
    if neg {
        0x8000_0000_0000_0000_0000_0000_0000_0000
    } else {
        0x7fff_ffff_ffff_ffff_ffff_ffff_ffff_ffff
    }
}

/// The digits from `i` on, read after the magnitude `acc` of those before.
pub open spec fn int_error_from(ds: Seq<char>, radix: nat, neg: bool, i: int, acc: nat) -> Seq<char>
    decreases ds.len() - i,
{
    if i < 0 || i >= ds.len() {
        "invalid digit found in string"@
    } else {
        match digit_value(ds[i], radix) {
            None => "invalid digit found in string"@,
            Some(d) => {
                let a = acc * radix + d;
                if a > int_limit(neg) {
                    if neg {
                        "number too small to fit in target type"@
                    } else {
                        "number too large to fit in target type"@
                    }
                } else {
                    int_error_from(ds, radix, neg, i + 1, a)
                }
            },
        }
    }
}

/// `parse_int_error` of `s[start..end]`.
pub fn parse_int_error_exec(s: &Vec<char>, start: usize, end: usize, radix: u32) -> (r: String)
    requires
        start <= end <= s@.len(),
        2 <= radix <= 36,
    ensures
        r@ == parse_int_error(s@.subrange(start as int, end as int), radix as nat),
{
    let ghost t = s@.subrange(start as int, end as int);
    proof {
        reveal_strlit("cannot parse integer from empty string");
        reveal_strlit("invalid digit found in string");
        reveal_strlit("number too small to fit in target type");
        reveal_strlit("number too large to fit in target type");
    }
    if start == end {
        return String::from_str("cannot parse integer from empty string");
    }
    let c0 = s[start];
    let signed = c0 == '+' || c0 == '-';
    if signed && end - start == 1 {
        return String::from_str("invalid digit found in string");
    }
    let neg = c0 == '-';
    let ds_start = if signed { start + 1 } else { start };
    let ghost ds = s@.subrange(ds_start as int, end as int);
    proof {
        assert(t[0] == c0);
        if signed {
            assert(t.drop_first() =~= ds);
        } else {
            assert(t =~= ds);
        }
    }
    let limit: u128 = if neg {
        0x8000_0000_0000_0000_0000_0000_0000_0000
    } else {
        0x7fff_ffff_ffff_ffff_ffff_ffff_ffff_ffff
    };
    let mut acc: u128 = 0;
    let mut i: usize = ds_start;
    while i < end
        invariant
            ds_start <= i <= end <= s@.len(),
            ds == s@.subrange(ds_start as int, end as int),
            2 <= radix <= 36,
            limit == int_limit(neg),
            t == s@.subrange(start as int, end as int),
            acc <= limit,
            parse_int_error(t, radix as nat) == int_error_from(ds, radix as nat, neg, i - ds_start, acc as nat),
        decreases end - i,
    {
        let ghost j = i - ds_start;
        assert(ds[j] == s@[i as int]);
        match digit_value_exec(s[i], radix) {
            None => {
                return String::from_str("invalid digit found in string");
            },
            Some(d) => {
                let over = match acc.checked_mul(radix as u128) {
                    None => true,
                    Some(m) => match m.checked_add(d as u128) {
                        None => true,
                        Some(a) => {
                            if a > limit {
                                true
                            } else {
                                acc = a;
                                false
                            }
                        },
                    },
                };
                if over {
                    assert(acc * radix + d > int_limit(neg)) by (nonlinear_arith)
                        requires
                            acc * radix + d > u128::MAX || acc * radix + d > limit,
                            limit == int_limit(neg),
                            limit <= u128::MAX,
                    ;
                    if neg {
                        return String::from_str("number too small to fit in target type");
                    } else {
                        return String::from_str("number too large to fit in target type");
                    }
                }
            },
        }
        i = i + 1;
    }
    String::from_str("invalid digit found in string")
}

} // verus!
