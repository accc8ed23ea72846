//! Base64: three bytes as four characters of a 64-letter alphabet, padded with `=`.

use vstd::prelude::*;
use vstd::string::*;

use crate::text::chars_of;

verus! {

/// The character for the six-bit value `v`.
pub open spec fn sextet_char(v: int) -> char {
    if v < 26 {
        ('A' as int + v) as char
    } else if v < 52 {
        ('a' as int + (v - 26)) as char
    } else if v < 62 {
        ('0' as int + (v - 52)) as char
    } else if v == 62 {
        '+'
    } else {
        '/'
    }
}

/// The six-bit value of a character, if it is in the alphabet.
pub open spec fn char_sextet(c: char) -> Option<int> {
    if 'A' <= c <= 'Z' {
        Some(c as int - 'A' as int)
    } else if 'a' <= c <= 'z' {
        Some(c as int - 'a' as int + 26)
    } else if '0' <= c <= '9' {
        Some(c as int - '0' as int + 52)
    } else if c == '+' {
        Some(62)
    } else if c == '/' {
        Some(63)
    } else {
        None
    }
}

/// The byte of `b` at `i`, or zero past its end.
pub open spec fn byte_or_zero(b: Seq<u8>, i: int) -> int {
    if 0 <= i < b.len() {
        b[i] as int
    } else {
        0
    }
}

/// The character at position `j` of the encoding of `b`.
pub open spec fn encoded_char(b: Seq<u8>, j: int) -> char {
    let at = 3 * (j / 4);
    let b0 = byte_or_zero(b, at);
    let b1 = byte_or_zero(b, at + 1);
    let b2 = byte_or_zero(b, at + 2);
    if j % 4 == 0 {
        sextet_char(b0 / 4)
    } else if j % 4 == 1 {
        sextet_char((b0 % 4) * 16 + b1 / 16)
    } else if j % 4 == 2 {
        if at + 1 < b.len() {
            sextet_char((b1 % 16) * 4 + b2 / 64)
        } else {
            '='
        }
    } else {
        if at + 2 < b.len() {
            sextet_char(b2 % 64)
        } else {
            '='
        }
    }
}

/// The encoding of `b`: four characters for every three bytes, the last group padded.
pub open spec fn encoded(b: Seq<u8>) -> Seq<char> {
    Seq::new((4 * ((b.len() + 2) / 3)) as nat, |j: int| encoded_char(b, j))
}

/// How many characters stand before the first padding character.
pub open spec fn body_len(s: Seq<char>) -> nat
    decreases s.len(),
{
    if s.len() == 0 || s[0] == '=' {
        0
    } else {
        1 + body_len(s.skip(1))
    }
}

/// The value of the character at `j`.
pub open spec fn sextet_at(s: Seq<char>, j: int) -> int {
    char_sextet(s[j])->0
}

/// The byte at position `i` of what `s` decodes to: bits `8 * i` up to `8 * i + 8` of the
/// characters' six-bit values, in order.
pub open spec fn decoded_byte(s: Seq<char>, i: int) -> u8 {
    let at = 4 * (i / 3);
    if i % 3 == 0 {
        (sextet_at(s, at) * 4 + sextet_at(s, at + 1) / 16) as u8
    } else if i % 3 == 1 {
        ((sextet_at(s, at + 1) % 16) * 16 + sextet_at(s, at + 2) / 4) as u8
    } else {
        ((sextet_at(s, at + 2) % 4) * 64 + sextet_at(s, at + 3)) as u8
    }
}

/// Every character before the padding is in the alphabet.
pub open spec fn decodable(s: Seq<char>) -> bool {
    forall|j: int| 0 <= j < body_len(s) ==> char_sextet(#[trigger] s[j]) is Some
}

/// What `s` decodes to, if it is decodable: every whole byte its characters spell before the
/// padding.
pub open spec fn decoded(s: Seq<char>) -> Option<Seq<u8>> {
    if decodable(s) {
        Some(Seq::new((body_len(s) * 6 / 8) as nat, |i: int| decoded_byte(s, i)))
    } else {
        None
    }
}

/// `s` is base64 as it is meant to be written: it decodes, no character is left over alone, since
/// six bits spell no byte, nothing but padding follows the padding, and there is padding only behind
/// what it pads.
pub open spec fn well_spelled(s: Seq<char>) -> bool {
    &&& decodable(s)
    &&& body_len(s) % 4 != 1
    &&& forall|j: int| body_len(s) <= j < s.len() ==> #[trigger] s[j] == '='
    &&& body_len(s) == 0 ==> s.len() == 0
}

/// Every encoding is well spelled.
pub proof fn encodings_are_well_spelled(b: Seq<u8>)
    ensures
        well_spelled(encoded(b)),
{
    let s = encoded(b);
    let n = b.len() as int;
    let m = if n % 3 == 0 {
        4 * (n / 3)
    } else {
        4 * (n / 3) + n % 3 + 1
    };
    decode_inverts_encode(b);
    assert forall|j: int| 0 <= j < m implies s[j] != '=' by {
        lemma_encoded_sextet(b, j);
    }
    assert forall|j: int| m <= j < s.len() implies #[trigger] s[j] == '=' by {
        assert(j / 4 == n / 3);
    }
    lemma_body_len_is(s, m as nat);
}

proof fn lemma_body_len_is(s: Seq<char>, n: nat)
    requires
        n <= s.len(),
        forall|j: int| 0 <= j < n ==> s[j] != '=',
        n == s.len() || s[n as int] == '=',
    ensures
        body_len(s) == n,
    decreases s.len(),
{
    if n > 0 {
        let rest = s.skip(1);
        assert forall|j: int| 0 <= j < n - 1 implies rest[j] != '=' by {
            assert(s[j + 1] != '=');
        }
        lemma_body_len_is(rest, (n - 1) as nat);
    }
}

proof fn lemma_sextet_inverse(v: int)
    requires
        0 <= v < 64,
    ensures
        char_sextet(sextet_char(v)) == Some(v),
        sextet_char(v) != '=',
{
}

/// The alphabet: the capital letters, the small letters, the digits, the plus sign and the slash, in
/// this order, and a character is worth its place.
pub proof fn the_alphabet(v: int, c: char)
    ensures
        0 <= v < 64 ==> sextet_char(v)
            == "ABCDEFGHIJKLMNOPQRSTUVWXYZabcdefghijklmnopqrstuvwxyz0123456789+/"@[v],
        0 <= v < 64 ==> (char_sextet(c) == Some(v) <==> c == sextet_char(v)),
        char_sextet(c) is Some ==> 0 <= char_sextet(c)->0 < 64,
{
    reveal_strlit("ABCDEFGHIJKLMNOPQRSTUVWXYZabcdefghijklmnopqrstuvwxyz0123456789+/");
}

/// Four characters spell three bytes: read as one number in base 64, they are the bytes read as one
/// number in base 256.
pub proof fn four_characters_spell_three_bytes(b: Seq<u8>, k: int)
    requires
        0 <= k,
        3 * k + 2 < b.len(),
    ensures
        encoded(b).len() >= 4 * k + 4,
        forall|j: int|
            4 * k <= j < 4 * k + 4 ==> char_sextet(#[trigger] encoded(b)[j]) is Some,
        ((sextet_at(encoded(b), 4 * k) * 64 + sextet_at(encoded(b), 4 * k + 1)) * 64 + sextet_at(
            encoded(b),
            4 * k + 2,
        )) * 64 + sextet_at(encoded(b), 4 * k + 3) == (b[3 * k] * 256 + b[3 * k + 1]) * 256 + b[3
            * k + 2],
{
    let s = encoded(b);
    assert((4 * k) / 4 == k && (4 * k + 1) / 4 == k && (4 * k + 2) / 4 == k && (4 * k + 3) / 4 == k);
    lemma_encoded_sextet(b, 4 * k);
    lemma_encoded_sextet(b, 4 * k + 1);
    lemma_encoded_sextet(b, 4 * k + 2);
    lemma_encoded_sextet(b, 4 * k + 3);
    assert forall|j: int| 4 * k <= j < 4 * k + 4 implies char_sextet(#[trigger] s[j]) is Some by {
        lemma_encoded_sextet(b, j);
    }
}

/// Text is well spelled exactly where it is letters of the alphabet and then padding, some letters if
/// there is any padding, and not one letter beyond whole groups of four.
pub proof fn what_is_well_spelled(s: Seq<char>)
    ensures
        well_spelled(s) <==> exists|n: int|
            {
                &&& 0 <= n <= s.len()
                &&& forall|j: int| 0 <= j < n ==> char_sextet(#[trigger] s[j]) is Some
                &&& forall|j: int| n <= j < s.len() ==> #[trigger] s[j] == '='
                &&& #[trigger] (n % 4) != 1
                &&& n == 0 ==> s.len() == 0
            },
{
    lemma_body_len(s);
    let m = body_len(s) as int;
    if well_spelled(s) {
        assert(m % 4 != 1);
    }
    if exists|n: int|
        {
            &&& 0 <= n <= s.len()
            &&& forall|j: int| 0 <= j < n ==> char_sextet(#[trigger] s[j]) is Some
            &&& forall|j: int| n <= j < s.len() ==> #[trigger] s[j] == '='
            &&& #[trigger] (n % 4) != 1
            &&& n == 0 ==> s.len() == 0
        } {
        let n = choose|n: int|
            {
                &&& 0 <= n <= s.len()
                &&& forall|j: int| 0 <= j < n ==> char_sextet(#[trigger] s[j]) is Some
                &&& forall|j: int| n <= j < s.len() ==> #[trigger] s[j] == '='
                &&& #[trigger] (n % 4) != 1
                &&& n == 0 ==> s.len() == 0
            };
        assert forall|j: int| 0 <= j < n implies s[j] != '=' by {
            assert(char_sextet(s[j]) is Some);
        }
        lemma_body_len_is(s, n as nat);
    }
}

/// What is decoded: the characters before the first padding, all of which must be in the alphabet,
/// spell six bits each, and of these every eight are a byte. What is left over, the padding and
/// whatever follows it count for nothing.
pub proof fn what_is_decoded(s: Seq<char>, n: int)
    requires
        0 <= n <= s.len(),
        forall|j: int| 0 <= j < n ==> s[j] != '=',
        n == s.len() || s[n] == '=',
    ensures
        decoded(s) is Some <==> forall|j: int| 0 <= j < n ==> char_sextet(#[trigger] s[j]) is Some,
        decoded(s) is Some ==> decoded(s)->0.len() == 6 * n / 8,
        decoded(s) == decoded(s.take(n)),
{
    let t = s.take(n);
    lemma_body_len_is(s, n as nat);
    lemma_body_len_is(t, n as nat);
    if decodable(s) {
        assert forall|j: int| 0 <= j < body_len(t) implies char_sextet(#[trigger] t[j]) is Some by {
            assert(char_sextet(s[j]) is Some);
        }
        let b = decoded(s)->0;
        let c = decoded(t)->0;
        assert forall|i: int| 0 <= i < b.len() implies b[i] == c[i] by {
            lemma_within(n, i);
        }
        assert(b =~= c);
    }
    if decodable(t) {
        assert forall|j: int| 0 <= j < body_len(s) implies char_sextet(#[trigger] s[j]) is Some by {
            assert(char_sextet(t[j]) is Some);
        }
    }
}

/// The characters that spell a byte stand before the padding.
proof fn lemma_within(n: int, i: int)
    requires
        0 <= i < 6 * n / 8,
    ensures
        0 <= 4 * (i / 3) + i % 3,
        4 * (i / 3) + i % 3 + 1 < n,
{
}

/// Which bits make a byte: of each four characters, the first byte is all of the first and the top
/// of the second, the next is the rest of the second and the top of the third, and the last is the
/// rest of the third and all of the fourth.
pub proof fn which_bits_make_a_byte(s: Seq<char>, k: int)
    requires
        decoded(s) is Some,
        0 <= k,
    ensures
        3 * k < decoded(s)->0.len() ==> decoded(s)->0[3 * k] == (64 * sextet_at(s, 4 * k)
            + sextet_at(s, 4 * k + 1)) / 16,
        3 * k + 1 < decoded(s)->0.len() ==> decoded(s)->0[3 * k + 1] == (64 * sextet_at(
            s,
            4 * k + 1,
        ) + sextet_at(s, 4 * k + 2)) / 4 % 256,
        3 * k + 2 < decoded(s)->0.len() ==> decoded(s)->0[3 * k + 2] == (64 * sextet_at(
            s,
            4 * k + 2,
        ) + sextet_at(s, 4 * k + 3)) % 256,
{
    let n = body_len(s) as int;
    let len = decoded(s)->0.len();
    lemma_body_len(s);
    if 3 * k < len {
        lemma_within(n, 3 * k);
        assert(char_sextet(s[4 * k]) is Some && char_sextet(s[4 * k + 1]) is Some);
        lemma_bits(sextet_at(s, 4 * k), sextet_at(s, 4 * k + 1));
        assert((3 * k) / 3 == k && (3 * k) % 3 == 0);
    }
    if 3 * k + 1 < len {
        lemma_within(n, 3 * k + 1);
        assert(char_sextet(s[4 * k + 1]) is Some && char_sextet(s[4 * k + 2]) is Some);
        lemma_bits(sextet_at(s, 4 * k + 1), sextet_at(s, 4 * k + 2));
        assert((3 * k + 1) / 3 == k && (3 * k + 1) % 3 == 1);
    }
    if 3 * k + 2 < len {
        lemma_within(n, 3 * k + 2);
        assert(char_sextet(s[4 * k + 2]) is Some && char_sextet(s[4 * k + 3]) is Some);
        lemma_bits(sextet_at(s, 4 * k + 2), sextet_at(s, 4 * k + 3));
        assert((3 * k + 2) / 3 == k && (3 * k + 2) % 3 == 2);
    }
}

proof fn lemma_bits(x: int, y: int)
    requires
        0 <= x < 64,
        0 <= y < 64,
    ensures
        x * 4 + y / 16 == (64 * x + y) / 16,
        (x % 16) * 16 + y / 4 == (64 * x + y) / 4 % 256,
        (x % 4) * 64 + y == (64 * x + y) % 256,
        0 <= x * 4 + y / 16 < 256,
        0 <= (x % 16) * 16 + y / 4 < 256,
        0 <= (x % 4) * 64 + y < 256,
{
    let a = x as u32;
    let b = y as u32;
    assert(a * 4 + b / 16 == (64 * a + b) / 16) by (bit_vector)
        requires
            a < 64,
            b < 64,
    ;
    assert((a % 16) * 16 + b / 4 == (64 * a + b) / 4 % 256) by (bit_vector)
        requires
            a < 64,
            b < 64,
    ;
    assert((a % 4) * 64 + b == (64 * a + b) % 256) by (bit_vector)
        requires
            a < 64,
            b < 64,
    ;
}

proof fn lemma_body_len(s: Seq<char>)
    ensures
        body_len(s) <= s.len(),
    decreases s.len(),
{
    if s.len() > 0 && s[0] != '=' {
        lemma_body_len(s.skip(1));
    }
}

/// Decoding an encoding gives the bytes back.
pub proof fn decode_inverts_encode(b: Seq<u8>)
    ensures
        decoded(encoded(b)) == Some(b),
{
    let s = encoded(b);
    let n = b.len() as int;
    let m = if n % 3 == 0 {
        4 * (n / 3)
    } else {
        4 * (n / 3) + n % 3 + 1
    };
    assert forall|j: int| 0 <= j < m implies s[j] != '=' && char_sextet(#[trigger] s[j]) is Some by {
        lemma_encoded_sextet(b, j);
    }
    assert(m <= s.len());
    if m < s.len() {
        assert(s[m] == '=') by {
            assert(m / 4 == n / 3);
        }
    }
    lemma_body_len_is(s, m as nat);
    assert(m * 6 / 8 == n);
    let d = Seq::new(n as nat, |i: int| decoded_byte(s, i));
    assert forall|i: int| 0 <= i < n implies d[i] == b[i] by {
        let at = 4 * (i / 3);
        assert(at / 4 == i / 3);
        assert((at + 1) / 4 == i / 3);
        assert((at + 2) / 4 == i / 3);
        assert((at + 3) / 4 == i / 3);
        lemma_encoded_sextet(b, at);
        lemma_encoded_sextet(b, at + 1);
        if i % 3 >= 1 {
            lemma_encoded_sextet(b, at + 2);
        }
        if i % 3 == 2 {
            lemma_encoded_sextet(b, at + 3);
        }
    }
    assert(d =~= b);
}

/// The six-bit value behind each unpadded character of an encoding.
spec fn encoded_sextet(b: Seq<u8>, j: int) -> int {
    let at = 3 * (j / 4);
    let b0 = byte_or_zero(b, at);
    let b1 = byte_or_zero(b, at + 1);
    let b2 = byte_or_zero(b, at + 2);
    if j % 4 == 0 {
        b0 / 4
    } else if j % 4 == 1 {
        (b0 % 4) * 16 + b1 / 16
    } else if j % 4 == 2 {
        (b1 % 16) * 4 + b2 / 64
    } else {
        b2 % 64
    }
}

proof fn lemma_encoded_sextet(b: Seq<u8>, j: int)
    requires
        0 <= j,
        3 * (j / 4) < b.len(),
        j % 4 == 2 ==> 3 * (j / 4) + 1 < b.len(),
        j % 4 == 3 ==> 3 * (j / 4) + 2 < b.len(),
    ensures
        j < encoded(b).len(),
        encoded(b)[j] == sextet_char(encoded_sextet(b, j)),
        char_sextet(encoded(b)[j]) == Some(encoded_sextet(b, j)),
        encoded(b)[j] != '=',
{
    let v = encoded_sextet(b, j);
    assert(0 <= v < 64);
    lemma_sextet_inverse(v);
}

/// The character for the six-bit value `v`.
fn letter(v: u8) -> (c: char)
    requires
        v < 64,
    ensures
        c == sextet_char(v as int),
{
    if v < 26 {
        (65u8 + v) as char
    } else if v < 52 {
        (97u8 + (v - 26)) as char
    } else if v < 62 {
        (48u8 + (v - 52)) as char
    } else if v == 62 {
        '+'
    } else {
        '/'
    }
}

/// The six-bit value of a character, if it is in the alphabet.
fn letter_value(c: char) -> (v: Option<u8>)
    ensures
        v is Some <==> char_sextet(c) is Some,
        v is Some ==> v->0 as int == char_sextet(c)->0 && v->0 < 64,
{
    let n: u32 = c as u32;
    if 65 <= n && n <= 90 {
        Some((n - 65) as u8)
    } else if 97 <= n && n <= 122 {
        Some((n - 97 + 26) as u8)
    } else if 48 <= n && n <= 57 {
        Some((n - 48 + 52) as u8)
    } else if c == '+' {
        Some(62)
    } else if c == '/' {
        Some(63)
    } else {
        None
    }
}

/// Encode bytes as base64.
pub fn b64_encode(input: &[u8]) -> (r: String)
    ensures
        r@ == encoded(input@),
{
    let mut out: String = String::new();
    let mut i: usize = 0;
    while i < input.len()
        invariant
            i <= input@.len(),
            i % 3 == 0 || i == input@.len(),
            out@ == encoded(input@).take(4 * ((i + 2) / 3)),
        decreases input@.len() - i,
    {
        let ghost g = i as int / 3;
        let left: usize = input.len() - i;
        let b0: u8 = input[i];
        let b1: u8 = if left > 1 {
            input[i + 1]
        } else {
            0
        };
        let b2: u8 = if left > 2 {
            input[i + 2]
        } else {
            0
        };
        let ghost before = out@;
        proof {
            assert(4 * g / 4 == g && (4 * g + 1) / 4 == g && (4 * g + 2) / 4 == g && (4 * g + 3) / 4
                == g);
            assert(0 <= encoded_sextet(input@, 4 * g + 1) < 64);
            assert(0 <= encoded_sextet(input@, 4 * g + 2) < 64);
        }
        out.push(letter(b0 / 4));
        out.push(letter((b0 % 4) * 16 + b1 / 16));
        out.push(
            if left > 1 {
                letter((b1 % 16) * 4 + b2 / 64)
            } else {
                '='
            },
        );
        out.push(
            if left > 2 {
                letter(b2 % 64)
            } else {
                '='
            },
        );
        let next: usize = if left > 3 {
            i + 3
        } else {
            input.len()
        };
        proof {
            assert((next + 2) / 3 == g + 1);
            assert(out@ =~= encoded(input@).take(4 * (g + 1)));
        }
        i = next;
    }
    assert(encoded(input@).take(4 * ((i + 2) / 3)) =~= encoded(input@));
    out
}

/// Decode base64, if every character before the padding is in the alphabet. What follows the first
/// padding character is not read, and bits that make no whole byte are dropped.
pub fn b64_decode(input: &str) -> (r: Option<Vec<u8>>)
    ensures
        r is Some <==> decoded(input@) is Some,
        r is Some ==> r->0@ == decoded(input@)->0,
{
    let chars: Vec<char> = chars_of(input);
    let mut out: Vec<u8> = Vec::new();
    let mut held: u8 = 0;
    let mut i: usize = 0;
    while i < chars.len() && chars[i] != '='
        invariant
            chars@ == input@,
            i <= chars@.len(),
            forall|j: int| 0 <= j < i ==> input@[j] != '=',
            forall|j: int| 0 <= j < i ==> char_sextet(#[trigger] input@[j]) is Some,
            out@.len() == i * 6 / 8,
            forall|k: int| 0 <= k < out@.len() ==> out@[k] == decoded_byte(input@, k),
            i % 4 == 1 ==> held == sextet_at(input@, i - 1),
            i % 4 == 2 ==> held == sextet_at(input@, i - 1) % 16,
            i % 4 == 3 ==> held == sextet_at(input@, i - 1) % 4,
        decreases chars@.len() - i,
    {
        let v: u8 = match letter_value(chars[i]) {
            Some(v) => v,
            None => {
                proof {
                    if decodable(input@) {
                        lemma_body_len_exceeds(input@, i as int);
                        assert(char_sextet(input@[i as int]) is Some);
                    }
                }
                return None;
            },
        };
        let ghost k = out@.len() as int;
        proof {
            assert(v == sextet_at(input@, i as int));
            if i > 0 {
                assert(0 <= sextet_at(input@, i - 1) < 64);
            }
        }
        match i % 4 {
            0 => {
                held = v;
            },
            1 => {
                proof {
                    assert(k % 3 == 0 && 4 * (k / 3) == i - 1);
                }
                out.push(held * 4 + v / 16);
                held = v % 16;
            },
            2 => {
                proof {
                    assert(k % 3 == 1 && 4 * (k / 3) == i - 2);
                }
                out.push(held * 16 + v / 4);
                held = v % 4;
            },
            _ => {
                proof {
                    assert(k % 3 == 2 && 4 * (k / 3) == i - 3);
                }
                out.push(held * 64 + v);
                held = 0;
            },
        }
        i = i + 1;
    }
    proof {
        lemma_body_len_is(input@, i as nat);
        assert(out@ =~= decoded(input@)->0);
    }
    Some(out)
}

/// Is the text base64 as it is meant to be written?
pub fn is_well_spelled(s: &str) -> (r: bool)
    ensures
        r == well_spelled(s@),
{
    let chars: Vec<char> = chars_of(s);
    let mut i: usize = 0;
    while i < chars.len() && chars[i] != '='
        invariant
            chars@ == s@,
            i <= chars@.len(),
            forall|j: int| 0 <= j < i ==> s@[j] != '=',
            forall|j: int| 0 <= j < i ==> char_sextet(#[trigger] s@[j]) is Some,
        decreases chars@.len() - i,
    {
        if letter_value(chars[i]).is_none() {
            proof {
                lemma_body_len_exceeds(s@, i as int);
                assert(char_sextet(s@[i as int]) is None);
            }
            return false;
        }
        i = i + 1;
    }
    proof {
        lemma_body_len_is(s@, i as nat);
    }
    if i % 4 == 1 || (i == 0 && chars.len() > 0) {
        return false;
    }
    let ghost body = i as int;
    while i < chars.len()
        invariant
            chars@ == s@,
            body == body_len(s@),
            body <= i <= chars@.len(),
            forall|j: int| body <= j < i ==> #[trigger] s@[j] == '=',
        decreases chars@.len() - i,
    {
        if chars[i] != '=' {
            assert(s@[i as int] != '=');
            return false;
        }
        i = i + 1;
    }
    true
}

proof fn lemma_body_len_exceeds(s: Seq<char>, i: int)
    requires
        0 <= i < s.len(),
        forall|j: int| 0 <= j <= i ==> s[j] != '=',
    ensures
        i < body_len(s),
    decreases s.len(),
{
    if i > 0 {
        let rest = s.skip(1);
        assert forall|j: int| 0 <= j <= i - 1 implies rest[j] != '=' by {
            assert(s[j + 1] != '=');
        }
        lemma_body_len_exceeds(rest, i - 1);
    }
}

} // verus!
