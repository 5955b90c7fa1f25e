//! Character-sequence utilities: decimal rendering, ASCII case folding and
//! substring search, shared by the diagnostics and supervisor modules.

use vstd::prelude::*;

verus! {

/// The decimal digit character for a value below ten.
pub open spec fn spec_digit(d: nat) -> char {
    if d == 0 {
        '0'
    } else if d == 1 {
        '1'
    } else if d == 2 {
        '2'
    } else if d == 3 {
        '3'
    } else if d == 4 {
        '4'
    } else if d == 5 {
        '5'
    } else if d == 6 {
        '6'
    } else if d == 7 {
        '7'
    } else if d == 8 {
        '8'
    } else {
        '9'
    }
}

/// The usual decimal rendering of a natural number, most significant digit
/// first, with no leading zeros (zero itself is "0").
pub open spec fn spec_decimal(n: nat) -> Seq<char>
    decreases n,
{
    if n < 10 {
        seq![spec_digit(n)]
    } else {
        spec_decimal(n / 10) + seq![spec_digit(n % 10)]
    }
}

fn digit_char(d: u8) -> (c: char)
    requires
        d < 10,
    ensures
        c == spec_digit(d as nat),
{
    match d {
        0 => '0',
        1 => '1',
        2 => '2',
        3 => '3',
        4 => '4',
        5 => '5',
        6 => '6',
        7 => '7',
        8 => '8',
        _ => '9',
    }
}

fn push_decimal(n: u128, out: &mut Vec<char>)
    ensures
        final(out)@ == old(out)@ + spec_decimal(n as nat),
    decreases n,
{
    if n < 10 {
        out.push(digit_char(n as u8));
    } else {
        push_decimal(n / 10, out);
        out.push(digit_char((n % 10) as u8));
    }
}

/// Decimal rendering of an unsigned value as a character vector.
pub fn u128_to_decimal(n: u128) -> (r: Vec<char>)
    ensures
        r@ == spec_decimal(n as nat),
{
    let mut out: Vec<char> = Vec::new();
    push_decimal(n, &mut out);
    out
}

/// The decimal rendering of an integer: a minus sign before the digits when
/// the value is negative.
pub open spec fn spec_decimal_int(i: int) -> Seq<char> {
    if i < 0 {
        seq!['-'] + spec_decimal((-i) as nat)
    } else {
        spec_decimal(i as nat)
    }
}

/// Decimal rendering of a signed value as a character vector.
pub fn i64_to_decimal(n: i64) -> (r: Vec<char>)
    ensures
        r@ == spec_decimal_int(n as int),
{
    let mut out: Vec<char> = Vec::new();
    if n < 0 {
        out.push('-');
        let mag: u128 = if n == i64::MIN {
            9223372036854775808u128
        } else {
            (-n) as u128
        };
        assert(mag as int == -(n as int));
        push_decimal(mag, &mut out);
    } else {
        push_decimal(n as u128, &mut out);
    }
    out
}

/// ASCII case folding of one character: letters A through Z map to their
/// lowercase forms, everything else is unchanged.
pub open spec fn spec_lower_char(c: char) -> char {
    if 65 <= c as u32 <= 90 {
        (((c as u32) + 32) as u8) as char
    } else {
        c
    }
}

/// ASCII case folding of a character sequence.
pub open spec fn spec_lower(s: Seq<char>) -> Seq<char> {
    s.map_values(|c: char| spec_lower_char(c))
}

/// Folds one character to ASCII lowercase.
pub fn lower_char(c: char) -> (r: char)
    ensures
        r == spec_lower_char(c),
{
    let u = c as u32;
    if 65 <= u && u <= 90 {
        ((u + 32) as u8) as char
    } else {
        c
    }
}

/// Folds a character vector to ASCII lowercase.
pub fn to_ascii_lowercase(v: &Vec<char>) -> (r: Vec<char>)
    ensures
        r@ == spec_lower(v@),
{
    let mut out: Vec<char> = Vec::new();
    let mut i: usize = 0;
    while i < v.len()
        invariant
            i <= v.len(),
            out@ == spec_lower(v@.subrange(0, i as int)),
        decreases v.len() - i,
    {
        out.push(lower_char(v[i]));
        proof {
            assert(v@.subrange(0, i + 1 as int).drop_last() =~= v@.subrange(0, i as int));
            assert(out@ =~= spec_lower(v@.subrange(0, i + 1 as int)));
        }
        i = i + 1;
    }
    proof {
        assert(v@.subrange(0, v@.len() as int) =~= v@);
    }
    out
}

/// Whether the two sequences are equal letter for letter once both are
/// folded to ASCII lowercase.
pub open spec fn spec_eq_ignore_ascii_case(a: Seq<char>, b: Seq<char>) -> bool {
    spec_lower(a) == spec_lower(b)
}

/// Case-insensitive (ASCII) equality of two character vectors.
pub fn eq_ignore_ascii_case(a: &Vec<char>, b: &Vec<char>) -> (r: bool)
    ensures
        r == spec_eq_ignore_ascii_case(a@, b@),
{
    if a.len() != b.len() {
        assert(spec_lower(a@).len() != spec_lower(b@).len());
        return false;
    }
    let mut i: usize = 0;
    while i < a.len()
        invariant
            i <= a.len(),
            a@.len() == b@.len(),
            forall|j: int| 0 <= j < i ==> spec_lower_char(a@[j]) == spec_lower_char(b@[j]),
        decreases a.len() - i,
    {
        if lower_char(a[i]) != lower_char(b[i]) {
            assert(spec_lower(a@)[i as int] != spec_lower(b@)[i as int]);
            return false;
        }
        i = i + 1;
    }
    proof {
        assert(spec_lower(a@) =~= spec_lower(b@));
    }
    true
}

/// Whether the needle occurs in the haystack starting at position `i`.
pub open spec fn spec_occurs_at(h: Seq<char>, n: Seq<char>, i: int) -> bool {
    0 <= i && i + n.len() <= h.len() && h.subrange(i, i + n.len()) == n
}

/// Whether the needle occurs anywhere in the haystack.
pub open spec fn spec_contains(h: Seq<char>, n: Seq<char>) -> bool {
    exists|i: int| spec_occurs_at(h, n, i)
}

fn occurs_at(h: &Vec<char>, n: &Vec<char>, i: usize) -> (r: bool)
    requires
        i + n@.len() <= h@.len(),
    ensures
        r == spec_occurs_at(h@, n@, i as int),
{
    let h_len = h.len();
    let mut j: usize = 0;
    while j < n.len()
        invariant
            j <= n@.len(),
            i + n@.len() <= h@.len(),
            h_len == h@.len(),
            forall|k: int| 0 <= k < j ==> h@[i + k] == n@[k],
        decreases n.len() - j,
    {
        assert(i + j < h_len);
        if h[i + j] != n[j] {
            assert(h@.subrange(i as int, i + n@.len()) != n@) by {
                assert(h@.subrange(i as int, i + n@.len())[j as int] != n@[j as int]);
            }
            return false;
        }
        j = j + 1;
    }
    proof {
        assert(h@.subrange(i as int, i + n@.len()) =~= n@);
    }
    true
}

/// Substring search: whether the needle occurs anywhere in the haystack.
pub fn contains_seq(h: &Vec<char>, n: &Vec<char>) -> (r: bool)
    ensures
        r == spec_contains(h@, n@),
{
    if n.len() > h.len() {
        assert(forall|i: int| !spec_occurs_at(h@, n@, i));
        return false;
    }
    let mut i: usize = 0;
    let last = h.len() - n.len();
    while i < last
        invariant
            i <= last,
            last + n@.len() == h@.len(),
            forall|k: int| 0 <= k < i ==> !spec_occurs_at(h@, n@, k),
        decreases last - i,
    {
        if occurs_at(h, n, i) {
            assert(spec_contains(h@, n@));
            return true;
        }
        i = i + 1;
    }
    if occurs_at(h, n, last) {
        assert(spec_contains(h@, n@));
        return true;
    }
    assert(forall|k: int| !spec_occurs_at(h@, n@, k));
    false
}

/// A copy of the characters between two positions.
pub fn subvec(v: &Vec<char>, a: usize, b: usize) -> (r: Vec<char>)
    requires
        a <= b <= v@.len(),
    ensures
        r@ == v@.subrange(a as int, b as int),
{
    let mut out: Vec<char> = Vec::new();
    let mut i: usize = a;
    while i < b
        invariant
            a <= i <= b <= v@.len(),
            out@ == v@.subrange(a as int, i as int),
        decreases b - i,
    {
        out.push(v[i]);
        proof {
            assert(out@ =~= v@.subrange(a as int, i + 1 as int));
        }
        i = i + 1;
    }
    out
}

/// The characters of a string slice, in order.
pub fn str_to_chars(s: &str) -> (r: Vec<char>)
    ensures
        r@ == s@,
{
    let n = s.unicode_len();
    let mut out: Vec<char> = Vec::new();
    let mut i: usize = 0;
    while i < n
        invariant
            i <= n,
            n == s@.len(),
            out@ == s@.subrange(0, i as int),
        decreases n - i,
    {
        out.push(s.get_char(i));
        proof {
            assert(out@ =~= s@.subrange(0, i + 1 as int));
        }
        i = i + 1;
    }
    proof {
        assert(s@.subrange(0, s@.len() as int) =~= s@);
    }
    out
}

/// Relies on `Iterator::collect` building a `String` from characters: the
/// collected string holds exactly the iterated characters in order.
#[verifier::external_body]
pub fn chars_to_string(v: &Vec<char>) -> (r: String)
    ensures
        r@ == v@,
{
    v.iter().collect()
}

/// Relies on `String::from_utf8`: it succeeds exactly on valid UTF-8 input
/// and returns the string those bytes encode.
#[verifier::external_body]
pub fn string_from_utf8(bytes: Vec<u8>) -> (r: Option<String>)
    ensures
        r matches Some(s) ==> vstd::utf8::encode_utf8(s@) == bytes@,
        (r is Some) == vstd::utf8::valid_utf8(bytes@),
{
    String::from_utf8(bytes).ok()
}

/// Character-for-character equality of two string slices, decided on their
/// UTF-8 bytes.
pub fn str_eq(a: &str, b: &str) -> (r: bool)
    ensures
        r == (a@ == b@),
{
    let ab = a.as_bytes();
    let bb = b.as_bytes();
    proof {
        vstd::utf8::encode_utf8_decode_utf8(a@);
        vstd::utf8::encode_utf8_decode_utf8(b@);
    }
    if ab.len() != bb.len() {
        return false;
    }
    let n = ab.len();
    let mut i: usize = 0;
    while i < n
        invariant
            i <= n,
            n == ab@.len() == bb@.len(),
            ab@ == vstd::utf8::encode_utf8(a@),
            bb@ == vstd::utf8::encode_utf8(b@),
            forall|j: int| 0 <= j < i ==> ab@[j] == bb@[j],
        decreases n - i,
    {
        if ab[i] != bb[i] {
            assert(ab@ != bb@);
            return false;
        }
        i = i + 1;
    }
    proof {
        assert(ab@ =~= bb@);
        assert(vstd::utf8::decode_utf8(ab@) == vstd::utf8::decode_utf8(bb@));
    }
    true
}

} // verus!
