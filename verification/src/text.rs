//! Character and byte utilities shared by the parsers: hexadecimal
//! rendering of object ids, decimal digit strings, and conversions
//! between `str`, `char` vectors and UTF-8 bytes.

use vstd::prelude::*;

use vstd::std_specs::iter::IteratorSpec;

verus! {

broadcast use vstd::string::next_postcondition;

/// The lower-case hexadecimal digit for a value below 16.
pub open spec fn spec_hex_char(n: int) -> char {
    if n == 0 {
        '0'
    } else if n == 1 {
        '1'
    } else if n == 2 {
        '2'
    } else if n == 3 {
        '3'
    } else if n == 4 {
        '4'
    } else if n == 5 {
        '5'
    } else if n == 6 {
        '6'
    } else if n == 7 {
        '7'
    } else if n == 8 {
        '8'
    } else if n == 9 {
        '9'
    } else if n == 10 {
        'a'
    } else if n == 11 {
        'b'
    } else if n == 12 {
        'c'
    } else if n == 13 {
        'd'
    } else if n == 14 {
        'e'
    } else {
        'f'
    }
}

/// The lower-case hexadecimal rendering of a byte sequence, two
/// digits per byte, high nibble first.
pub open spec fn hex_of(s: Seq<u8>) -> Seq<char>
    decreases s.len(),
{
    if s.len() == 0 {
        Seq::empty()
    } else {
        seq![spec_hex_char((s[0] >> 4) as int), spec_hex_char((s[0] & 0x0f) as int)]
            + hex_of(s.drop_first())
    }
}

/// The lower-case hexadecimal digit for `n`, matching [`spec_hex_char`].
pub fn hex_char(n: u8) -> (r: char)
    requires
        n < 16,
    ensures
        r == spec_hex_char(n as int),
{
    match n {
        0 => '0',
        1 => '1',
        2 => '2',
        3 => '3',
        4 => '4',
        5 => '5',
        6 => '6',
        7 => '7',
        8 => '8',
        9 => '9',
        10 => 'a',
        11 => 'b',
        12 => 'c',
        13 => 'd',
        14 => 'e',
        _ => 'f',
    }
}

/// Appends a string slice at the end of a string.
pub fn append_str(s: &mut String, tail: &str)
    ensures
        final(s)@ == old(s)@ + tail@,
{
    vstd::string::StringExecFns::append(s, tail)
}

/// Relies on `String::push`: appends one character at the end.
#[verifier::external_body]
pub fn push_char(s: &mut String, c: char)
    ensures
        final(s)@ == old(s)@.push(c),
{
    s.push(c)
}

/// Renders a byte slice as its lower-case hexadecimal string.
pub fn to_hex_string(data: &[u8]) -> (r: String)
    ensures
        r@ == hex_of(data@),
{
    let mut r = String::new();
    let n = data.len();
    assert(data@.skip(0) == data@);
    for i in 0..n
        invariant
            n == data@.len(),
            hex_of(data@) =~= r@ + hex_of(data@.skip(i as int)),
            r@.len() == 2 * i,
    {
        let b = data[i];
        assert(b >> 4 < 16 && (b & 0x0f) < 16) by (bit_vector);
        push_char(&mut r, hex_char(b >> 4));
        push_char(&mut r, hex_char(b & 0x0f));
        assert(data@.skip(i as int).drop_first() == data@.skip(i + 1));
    }
    r
}

/// Whether `c` is an ASCII decimal digit.
pub open spec fn is_dec_digit(c: char) -> bool {
    48 <= (c as u32) <= 57
}

/// The numeric value of a decimal digit character.
pub open spec fn digit_val(c: char) -> int {
    (c as u32) - 48
}

/// Whether every character of `s` is a decimal digit.
pub open spec fn all_dec_digits(s: Seq<char>) -> bool {
    forall|i: int| 0 <= i < s.len() ==> is_dec_digit(#[trigger] s[i])
}

/// The value of a decimal digit string, most significant digit first.
pub open spec fn digits_val(s: Seq<char>) -> int
    decreases s.len(),
{
    if s.len() == 0 {
        0
    } else {
        digits_val(s.drop_last()) * 10 + digit_val(s.last())
    }
}

/// Parses the decimal digit string `s[from..to]` into a `u64`.
/// Succeeds exactly on nonempty all-digit ranges whose value fits.
pub fn parse_u64_digits(s: &[char], from: usize, to: usize) -> (r: Option<u64>)
    requires
        from <= to <= s@.len(),
    ensures
        match r {
            Some(v) => {
                &&& all_dec_digits(s@.subrange(from as int, to as int))
                &&& from < to
                &&& v == digits_val(s@.subrange(from as int, to as int))
            },
            None => from == to || !all_dec_digits(s@.subrange(from as int, to as int))
                || digits_val(s@.subrange(from as int, to as int)) > u64::MAX,
        },
{
    if from == to {
        return None;
    }
    let mut acc: u64 = 0;
    let mut i: usize = from;
    while i < to
        invariant
            from <= i <= to <= s@.len(),
            all_dec_digits(s@.subrange(from as int, i as int)),
            acc == digits_val(s@.subrange(from as int, i as int)),
        decreases to - i,
    {
        let c = s[i];
        let cv = c as u32;
        if cv < 48 || cv > 57 {
            assert(!is_dec_digit(s@.subrange(from as int, to as int)[i - from]));
            return None;
        }
        let d: u64 = (cv - 48) as u64;
        proof {
            assert(s@.subrange(from as int, i + 1).drop_last() =~= s@.subrange(
                from as int,
                i as int,
            ));
            assert(s@.subrange(from as int, i + 1).last() == s@[i as int]);
            assert forall|j: int| 0 <= j < i + 1 - from implies is_dec_digit(
                #[trigger] s@.subrange(from as int, i + 1)[j],
            ) by {
                if j < i - from {
                    assert(s@.subrange(from as int, i + 1)[j] == s@.subrange(
                        from as int,
                        i as int,
                    )[j]);
                }
            }
        }
        if acc > (u64::MAX - d) / 10 {
            proof {
                let whole = s@.subrange(from as int, to as int);
                let part = s@.subrange(from as int, i + 1);
                assert(acc * 10 + d > u64::MAX) by (nonlinear_arith)
                    requires
                        acc > (u64::MAX as int - d) / 10,
                        0 <= d <= 9,
                ;
                if all_dec_digits(whole) {
                    lemma_digits_val_prefix_le(whole, part);
                }
            }
            return None;
        }
        assert(acc * 10 + d <= u64::MAX) by (nonlinear_arith)
            requires
                acc <= (u64::MAX as int - d) / 10,
                0 <= d <= 9,
        ;
        acc = acc * 10 + d;
        i = i + 1;
    }
    proof {
        assert(s@.subrange(from as int, to as int) == s@.subrange(from as int, i as int));
    }
    Some(acc)
}

/// A digit string is worth at least as much as any of its prefixes:
/// appending digits can only increase the value.
proof fn lemma_digits_val_prefix_le(whole: Seq<char>, part: Seq<char>)
    requires
        part.len() <= whole.len(),
        forall|i: int| 0 <= i < part.len() ==> part[i] == whole[i],
        all_dec_digits(whole),
    ensures
        digits_val(part) <= digits_val(whole),
        digits_val(whole) >= 0,
    decreases whole.len(),
{
    if whole.len() == 0 {
    } else if part.len() == whole.len() {
        assert(part =~= whole);
        lemma_digits_val_nonneg(whole);
    } else {
        lemma_digits_val_prefix_le(whole.drop_last(), part);
        lemma_digits_val_nonneg(whole.drop_last());
        assert(digits_val(whole.drop_last()) * 10 >= digits_val(whole.drop_last()))
            by (nonlinear_arith)
            requires
                digits_val(whole.drop_last()) >= 0,
        ;
    }
}

/// The value of an all-digit string is never negative.
proof fn lemma_digits_val_nonneg(s: Seq<char>)
    requires
        all_dec_digits(s),
    ensures
        digits_val(s) >= 0,
    decreases s.len(),
{
    if s.len() > 0 {
        assert(all_dec_digits(s.drop_last()));
        lemma_digits_val_nonneg(s.drop_last());
        assert(digits_val(s.drop_last()) * 10 >= 0) by (nonlinear_arith)
            requires
                digits_val(s.drop_last()) >= 0,
        ;
    }
}

/// The canonical decimal rendering of a non-negative integer:
/// no sign and no leading zero (except for the number 0 itself).
pub open spec fn dec_str_of(n: int) -> Seq<char>
    recommends
        n >= 0,
    decreases n,
{
    if n <= 9 {
        seq![spec_hex_char(n)]
    } else {
        dec_str_of(n / 10).push(spec_hex_char(n % 10))
    }
}

/// The canonical decimal rendering consists of digits only.
pub proof fn lemma_dec_str_all_digits(n: int)
    requires
        n >= 0,
    ensures
        all_dec_digits(dec_str_of(n)),
        dec_str_of(n).len() >= 1,
    decreases n,
{
    if n <= 9 {
        assert(is_dec_digit(spec_hex_char(n)));
    } else {
        lemma_dec_str_all_digits(n / 10);
        let s = dec_str_of(n / 10);
        assert(is_dec_digit(spec_hex_char(n % 10)));
        assert forall|i: int| 0 <= i < s.push(spec_hex_char(n % 10)).len() implies is_dec_digit(
            #[trigger] s.push(spec_hex_char(n % 10))[i],
        ) by {
            if i < s.len() {
                assert(s.push(spec_hex_char(n % 10))[i] == s[i]);
            }
        }
    }
}

/// Parsing the canonical decimal rendering gives the number back.
pub proof fn lemma_dec_str_val(n: int)
    requires
        n >= 0,
    ensures
        digits_val(dec_str_of(n)) == n,
    decreases n,
{
    if n <= 9 {
        assert(digits_val(seq![spec_hex_char(n)].drop_last()) == 0);
        assert(digit_val(spec_hex_char(n)) == n);
    } else {
        lemma_dec_str_val(n / 10);
        let s = dec_str_of(n / 10);
        let c = spec_hex_char(n % 10);
        assert(s.push(c).drop_last() =~= s);
        assert(s.push(c).last() == c);
        assert(digit_val(c) == n % 10);
    }
}

/// Renders a `u64` in decimal, matching [`dec_str_of`].
pub fn u64_to_dec_string(n: u64) -> (r: String)
    ensures
        r@ == dec_str_of(n as int),
    decreases n,
{
    if n <= 9 {
        let mut s = String::new();
        push_char(&mut s, hex_char(n as u8));
        assert(s@ =~= dec_str_of(n as int));
        s
    } else {
        let mut s = u64_to_dec_string(n / 10);
        push_char(&mut s, hex_char((n % 10) as u8));
        s
    }
}

/// Encodes the character range `s[from..to]` as UTF-8 bytes,
/// matching vstd's `encode_utf8`.
pub fn utf8_encode_chars(s: &[char], from: usize, to: usize) -> (r: Vec<u8>)
    requires
        from <= to <= s@.len(),
    ensures
        r@ == vstd::utf8::encode_utf8(s@.subrange(from as int, to as int)),
{
    broadcast use vstd::utf8::char_is_scalar;

    let mut r: Vec<u8> = Vec::new();
    let mut i: usize = from;
    while i < to
        invariant
            from <= i <= to <= s@.len(),
            vstd::utf8::encode_utf8(s@.subrange(from as int, to as int)) =~= r@
                + vstd::utf8::encode_utf8(s@.subrange(i as int, to as int)),
        decreases to - i,
    {
        let c = s[i];
        let v = c as u32;
        let ghost pre = r@;
        proof {
            vstd::utf8::char_is_scalar(c);
            assert(s@.subrange(i as int, to as int).drop_first() =~= s@.subrange(
                i + 1,
                to as int,
            ));
            assert(s@.subrange(i as int, to as int)[0] == s@[i as int]);
        }
        if v < 0x80 {
            r.push((v & 0x7F) as u8);
        } else if v < 0x800 {
            r.push(0xC0u8 | (((v >> 6) & 0x1F) as u8));
            r.push(0x80u8 | ((v & 0x3F) as u8));
        } else if v < 0x10000 {
            r.push(0xE0u8 | (((v >> 12) & 0x0F) as u8));
            r.push(0x80u8 | (((v >> 6) & 0x3F) as u8));
            r.push(0x80u8 | ((v & 0x3F) as u8));
        } else {
            r.push(0xF0u8 | (((v >> 18) & 0x7) as u8));
            r.push(0x80u8 | (((v >> 12) & 0x3F) as u8));
            r.push(0x80u8 | (((v >> 6) & 0x3F) as u8));
            r.push(0x80u8 | ((v & 0x3F) as u8));
        }
        proof {
            assert(r@ =~= pre + vstd::utf8::encode_scalar(v));
        }
        i = i + 1;
    }
    proof {
        assert(s@.subrange(to as int, to as int) =~= Seq::<char>::empty());
    }
    r
}

/// Whether `b` is an ASCII decimal digit byte.
pub open spec fn is_digit_byte(b: u8) -> bool {
    48 <= b <= 57
}

/// Whether every byte of `s` is a decimal digit.
pub open spec fn all_digit_bytes(s: Seq<u8>) -> bool {
    forall|i: int| 0 <= i < s.len() ==> is_digit_byte(#[trigger] s[i])
}

/// The value of a decimal digit byte string, most significant first.
pub open spec fn digit_bytes_val(s: Seq<u8>) -> int
    decreases s.len(),
{
    if s.len() == 0 {
        0
    } else {
        digit_bytes_val(s.drop_last()) * 10 + (s.last() - 48)
    }
}

/// The canonical decimal rendering of a non-negative integer as
/// ASCII bytes.
pub open spec fn dec_bytes_of(n: int) -> Seq<u8>
    recommends
        n >= 0,
    decreases n,
{
    if n <= 9 {
        seq![(48 + n) as u8]
    } else {
        dec_bytes_of(n / 10).push((48 + n % 10) as u8)
    }
}

/// The canonical decimal byte rendering consists of digits only and
/// parses back to the number itself.
pub proof fn lemma_dec_bytes_props(n: int)
    requires
        0 <= n <= 0xffff_ffff_ffff_ffff,
    ensures
        all_digit_bytes(dec_bytes_of(n)),
        dec_bytes_of(n).len() >= 1,
        digit_bytes_val(dec_bytes_of(n)) == n,
    decreases n,
{
    if n <= 9 {
        assert(digit_bytes_val(dec_bytes_of(n).drop_last()) == 0);
    } else {
        lemma_dec_bytes_props(n / 10);
        let s = dec_bytes_of(n / 10);
        let c = (48 + n % 10) as u8;
        assert(s.push(c).drop_last() =~= s);
        assert(s.push(c).last() == c);
        assert forall|i: int| 0 <= i < s.push(c).len() implies is_digit_byte(
            #[trigger] s.push(c)[i],
        ) by {
            if i < s.len() {
                assert(s.push(c)[i] == s[i]);
            }
        }
    }
}

/// The value of an all-digit byte string is never negative, and a
/// prefix is worth no more than the whole.
pub proof fn lemma_digit_bytes_prefix_le(whole: Seq<u8>, part: Seq<u8>)
    requires
        part.len() <= whole.len(),
        forall|i: int| 0 <= i < part.len() ==> part[i] == whole[i],
        all_digit_bytes(whole),
    ensures
        digit_bytes_val(part) <= digit_bytes_val(whole),
        digit_bytes_val(whole) >= 0,
    decreases whole.len(),
{
    if whole.len() == 0 {
    } else if part.len() == whole.len() {
        assert(part =~= whole);
        lemma_digit_bytes_nonneg(whole);
    } else {
        lemma_digit_bytes_prefix_le(whole.drop_last(), part);
        lemma_digit_bytes_nonneg(whole.drop_last());
        assert(digit_bytes_val(whole.drop_last()) * 10 >= digit_bytes_val(whole.drop_last()))
            by (nonlinear_arith)
            requires
                digit_bytes_val(whole.drop_last()) >= 0,
        ;
    }
}

/// The value of an all-digit byte string is never negative.
pub proof fn lemma_digit_bytes_nonneg(s: Seq<u8>)
    requires
        all_digit_bytes(s),
    ensures
        digit_bytes_val(s) >= 0,
    decreases s.len(),
{
    if s.len() > 0 {
        assert(all_digit_bytes(s.drop_last()));
        lemma_digit_bytes_nonneg(s.drop_last());
        assert(digit_bytes_val(s.drop_last()) * 10 >= 0) by (nonlinear_arith)
            requires
                digit_bytes_val(s.drop_last()) >= 0,
        ;
    }
}

/// Parses the decimal digit byte string `s[from..to]` as an `i32`.
/// Succeeds exactly on nonempty all-digit ranges whose value fits.
pub fn parse_i32_digit_bytes(s: &[u8], from: usize, to: usize) -> (r: Option<i32>)
    requires
        from <= to <= s@.len(),
    ensures
        match r {
            Some(v) => {
                &&& all_digit_bytes(s@.subrange(from as int, to as int))
                &&& from < to
                &&& v == digit_bytes_val(s@.subrange(from as int, to as int))
            },
            None => from == to || !all_digit_bytes(s@.subrange(from as int, to as int))
                || digit_bytes_val(s@.subrange(from as int, to as int)) > i32::MAX,
        },
{
    if from == to {
        return None;
    }
    let mut acc: i32 = 0;
    let mut i: usize = from;
    while i < to
        invariant
            from <= i <= to <= s@.len(),
            all_digit_bytes(s@.subrange(from as int, i as int)),
            acc == digit_bytes_val(s@.subrange(from as int, i as int)),
            acc >= 0,
        decreases to - i,
    {
        let b = s[i];
        if b < 48 || b > 57 {
            assert(!is_digit_byte(s@.subrange(from as int, to as int)[i - from]));
            return None;
        }
        let d: i32 = (b - 48) as i32;
        proof {
            assert(s@.subrange(from as int, i + 1).drop_last() =~= s@.subrange(
                from as int,
                i as int,
            ));
            assert(s@.subrange(from as int, i + 1).last() == s@[i as int]);
            assert forall|j: int| 0 <= j < i + 1 - from implies is_digit_byte(
                #[trigger] s@.subrange(from as int, i + 1)[j],
            ) by {
                if j < i - from {
                    assert(s@.subrange(from as int, i + 1)[j] == s@.subrange(
                        from as int,
                        i as int,
                    )[j]);
                }
            }
        }
        if acc > (i32::MAX - d) / 10 {
            proof {
                let whole = s@.subrange(from as int, to as int);
                let part = s@.subrange(from as int, i + 1);
                assert(acc * 10 + d > i32::MAX) by (nonlinear_arith)
                    requires
                        acc > (i32::MAX as int - d) / 10,
                        0 <= d <= 9,
                        acc >= 0,
                ;
                if all_digit_bytes(whole) {
                    lemma_digit_bytes_prefix_le(whole, part);
                }
            }
            return None;
        }
        assert(acc * 10 + d <= i32::MAX) by (nonlinear_arith)
            requires
                0 <= acc <= (i32::MAX as int - d) / 10,
                0 <= d <= 9,
        ;
        acc = acc * 10 + d;
        i = i + 1;
    }
    proof {
        assert(s@.subrange(from as int, to as int) == s@.subrange(from as int, i as int));
    }
    Some(acc)
}

/// Checks that every character of `s[from..to]` is a decimal digit.
pub fn all_digits_in_range(s: &[char], from: usize, to: usize) -> (r: bool)
    requires
        from <= to <= s@.len(),
    ensures
        r == all_dec_digits(s@.subrange(from as int, to as int)),
{
    let mut i: usize = from;
    while i < to
        invariant
            from <= i <= to <= s@.len(),
            forall|j: int| from <= j < i ==> is_dec_digit(#[trigger] s@[j]),
        decreases to - i,
    {
        let cv = s[i] as u32;
        if cv < 48 || cv > 57 {
            proof {
                assert(s@.subrange(from as int, to as int)[i - from] == s@[i as int]);
            }
            return false;
        }
        i = i + 1;
    }
    proof {
        assert forall|j: int| 0 <= j < to - from implies is_dec_digit(
            #[trigger] s@.subrange(from as int, to as int)[j],
        ) by {
            assert(s@.subrange(from as int, to as int)[j] == s@[from + j]);
        }
    }
    true
}

/// Powers of ten.
pub open spec fn pow10(n: nat) -> int
    decreases n,
{
    if n == 0 {
        1int
    } else {
        10 * pow10((n - 1) as nat)
    }
}

/// An all-digit byte string of length `n` is worth less than ten to
/// the `n`.
pub proof fn lemma_digit_bytes_val_bound(s: Seq<u8>)
    requires
        all_digit_bytes(s),
    ensures
        0 <= digit_bytes_val(s) < pow10(s.len()),
    decreases s.len(),
{
    if s.len() > 0 {
        assert(all_digit_bytes(s.drop_last()));
        lemma_digit_bytes_val_bound(s.drop_last());
        assert(digit_bytes_val(s.drop_last()) * 10 <= (pow10((s.len() - 1) as nat) - 1) * 10)
            by (nonlinear_arith)
            requires
                digit_bytes_val(s.drop_last()) <= pow10((s.len() - 1) as nat) - 1,
        ;
        assert(digit_bytes_val(s.drop_last()) * 10 >= 0) by (nonlinear_arith)
            requires
                digit_bytes_val(s.drop_last()) >= 0,
        ;
    }
}

/// The position of the first occurrence of `b` in `d` at or after
/// `from`, if any.
pub open spec fn index_of_byte(d: Seq<u8>, b: u8, from: int) -> Option<int>
    decreases d.len() - from,
{
    if from < 0 || from >= d.len() {
        None
    } else if d[from] == b {
        Some(from)
    } else {
        index_of_byte(d, b, from + 1)
    }
}

/// What a successful or failed byte search means, position by
/// position.
pub proof fn lemma_index_of_byte(d: Seq<u8>, b: u8, from: int)
    requires
        0 <= from <= d.len(),
    ensures
        match index_of_byte(d, b, from) {
            Some(i) => from <= i < d.len() && d[i] == b && forall|j: int|
                from <= j < i ==> d[j] != b,
            None => forall|j: int| from <= j < d.len() ==> d[j] != b,
        },
    decreases d.len() - from,
{
    if from < d.len() && d[from] != b {
        lemma_index_of_byte(d, b, from + 1);
    }
}

/// The position of the first occurrence of `c` in `s` at or after
/// `from`, if any.
pub open spec fn index_of_char(s: Seq<char>, c: char, from: int) -> Option<int>
    decreases s.len() - from,
{
    if from < 0 || from >= s.len() {
        None
    } else if s[from] == c {
        Some(from)
    } else {
        index_of_char(s, c, from + 1)
    }
}

/// What a successful or failed character search means.
pub proof fn lemma_index_of_char(s: Seq<char>, c: char, from: int)
    requires
        0 <= from <= s.len(),
    ensures
        match index_of_char(s, c, from) {
            Some(i) => from <= i < s.len() && s[i] == c && forall|j: int|
                from <= j < i ==> s[j] != c,
            None => forall|j: int| from <= j < s.len() ==> s[j] != c,
        },
    decreases s.len() - from,
{
    if from < s.len() && s[from] != c {
        lemma_index_of_char(s, c, from + 1);
    }
}

/// Finds the first occurrence of `b` in `d[from..]`.
pub fn find_byte(d: &[u8], b: u8, from: usize) -> (r: Option<usize>)
    requires
        from <= d@.len(),
    ensures
        match r {
            Some(i) => index_of_byte(d@, b, from as int) == Some(i as int),
            None => index_of_byte(d@, b, from as int) is None,
        },
{
    let n = d.len();
    let mut i: usize = from;
    while i < n
        invariant
            from <= i <= n == d@.len(),
            index_of_byte(d@, b, from as int) == index_of_byte(d@, b, i as int),
        decreases n - i,
    {
        if d[i] == b {
            return Some(i);
        }
        i = i + 1;
    }
    None
}

/// Finds the first occurrence of `c` in `s[from..]`.
pub fn find_char(s: &[char], c: char, from: usize) -> (r: Option<usize>)
    requires
        from <= s@.len(),
    ensures
        match r {
            Some(i) => index_of_char(s@, c, from as int) == Some(i as int),
            None => index_of_char(s@, c, from as int) is None,
        },
{
    let n = s.len();
    let mut i: usize = from;
    while i < n
        invariant
            from <= i <= n == s@.len(),
            index_of_char(s@, c, from as int) == index_of_char(s@, c, i as int),
        decreases n - i,
    {
        if s[i] == c {
            return Some(i);
        }
        i = i + 1;
    }
    None
}

/// Copies the byte range `d[from..to]` into a fresh vector.
pub fn bytes_range(d: &[u8], from: usize, to: usize) -> (r: Vec<u8>)
    requires
        from <= to <= d@.len(),
    ensures
        r@ == d@.subrange(from as int, to as int),
{
    let mut r: Vec<u8> = Vec::new();
    let mut i: usize = from;
    while i < to
        invariant
            from <= i <= to <= d@.len(),
            r@ == d@.subrange(from as int, i as int),
        decreases to - i,
    {
        r.push(d[i]);
        proof {
            assert(r@ =~= d@.subrange(from as int, i + 1));
        }
        i = i + 1;
    }
    r
}

/// Collects the characters of a string slice into a vector.
pub fn str_to_chars(s: &str) -> (r: Vec<char>)
    ensures
        r@ == s@,
{
    let mut out: Vec<char> = Vec::new();
    for c in it: s.chars()
        invariant
            it.seq() == s@,
            out@ == it.seq().take(it.index()),
    {
        out.push(c);
        proof {
            assert(out@ =~= it.seq().take(it.index() + 1));
        }
    }
    assert(out@ =~= s@);
    out
}

/// Builds a `String` from a range of a character slice.
pub fn chars_to_string(s: &[char], from: usize, to: usize) -> (r: String)
    requires
        from <= to <= s@.len(),
    ensures
        r@ == s@.subrange(from as int, to as int),
{
    let mut r = String::new();
    let mut i: usize = from;
    while i < to
        invariant
            from <= i <= to <= s@.len(),
            r@ == s@.subrange(from as int, i as int),
        decreases to - i,
    {
        push_char(&mut r, s[i]);
        proof {
            assert(s@.subrange(from as int, i + 1) =~= s@.subrange(from as int, i as int).push(
                s@[i as int],
            ));
        }
        i = i + 1;
    }
    r
}

} // verus!
