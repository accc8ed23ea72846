//! What keeps the two runs of a comparison apart, and what makes them comparable again.
//!
//! The runs share a cluster, so every key is namespaced under the run's own prefix; the prefix is
//! redacted before two runs are compared.

use vstd::prelude::*;
use vstd::string::*;
use vstd::utf8::*;

use crate::base64::{decode_inverts_encode, decoded, encoded};
use crate::command::{prefix_token, KeyArgView};
use crate::order::lemma_utf8_injective;
use crate::project::redacted;
use crate::text::{occurs, occurs_at, replaced, starts_with, where_something_occurs};

verus! {

/// The UTF-8 bytes of a concatenation.
pub proof fn lemma_utf8_concat(a: Seq<char>, b: Seq<char>)
    ensures
        encode_utf8(a + b) == encode_utf8(a) + encode_utf8(b),
    decreases a.len(),
{
    if a.len() == 0 {
        assert(a + b =~= b);
        assert(encode_utf8(a) + encode_utf8(b) =~= encode_utf8(b));
    } else {
        lemma_utf8_concat(a.drop_first(), b);
        assert((a + b).drop_first() =~= a.drop_first() + b);
        assert((a + b)[0] == a[0]);
        let head = encode_scalar(a[0] as u32);
        assert(head + (encode_utf8(a.drop_first()) + encode_utf8(b)) =~= (head + encode_utf8(
            a.drop_first(),
        )) + encode_utf8(b));
    }
}

/// How many occurrences a replacement from the left replaces.
pub open spec fn hits<T>(s: Seq<T>, needle: Seq<T>) -> nat
    decreases s.len(),
{
    if needle.len() == 0 || s.len() == 0 {
        0
    } else if starts_with(s, needle) {
        1 + hits(s.skip(needle.len() as int), needle)
    } else {
        hits(s.skip(1), needle)
    }
}

proof fn lemma_replaced_len<T>(s: Seq<T>, needle: Seq<T>, with: Seq<T>)
    ensures
        replaced(s, needle, with).len() == s.len() + hits(s, needle) * (with.len() - needle.len()),
    decreases s.len(),
{
    let d = with.len() - needle.len();
    if needle.len() == 0 || s.len() == 0 {
        assert(0 * d == 0);
    } else if starts_with(s, needle) {
        let rest = s.skip(needle.len() as int);
        lemma_replaced_len(rest, needle, with);
        let h = hits(rest, needle) as int;
        assert((1 + h) * d == d + h * d) by (nonlinear_arith);
    } else {
        lemma_replaced_len(s.skip(1), needle, with);
    }
}

proof fn lemma_occurs_hits<T>(s: Seq<T>, needle: Seq<T>)
    requires
        needle.len() > 0,
        occurs(s, needle),
    ensures
        hits(s, needle) > 0,
    decreases s.len(),
{
    let at = choose|at: int| occurs_at(s, needle, at);
    if !starts_with(s, needle) {
        assert(at > 0);
        let rest = s.skip(1);
        assert forall|i: int| 0 <= i < needle.len() implies rest[at - 1 + i] == needle[i] by {
            assert(s[at + i] == needle[i]);
        }
        assert(occurs_at(rest, needle, at - 1));
        lemma_occurs_hits(rest, needle);
    }
}

/// Two replacements of the same length that give the same result replace with the same.
proof fn lemma_replaced_injective<T>(s: Seq<T>, needle: Seq<T>, p: Seq<T>, q: Seq<T>)
    requires
        p.len() == q.len(),
        hits(s, needle) > 0,
        replaced(s, needle, p) == replaced(s, needle, q),
    ensures
        p == q,
    decreases s.len(),
{
    if starts_with(s, needle) {
        let rest = s.skip(needle.len() as int);
        let a = p + replaced(rest, needle, p);
        let b = q + replaced(rest, needle, q);
        assert(a == b);
        assert forall|i: int| 0 <= i < p.len() implies p[i] == q[i] by {
            assert(a[i] == b[i]);
        }
        assert(p =~= q);
    } else {
        let rest = s.skip(1);
        let a = seq![s[0]] + replaced(rest, needle, p);
        let b = seq![s[0]] + replaced(rest, needle, q);
        assert(a == b);
        assert(a.skip(1) =~= replaced(rest, needle, p));
        assert(b.skip(1) =~= replaced(rest, needle, q));
        lemma_replaced_injective(rest, needle, p, q);
    }
}

proof fn lemma_token_len()
    ensures
        prefix_token().len() == 3,
{
    reveal_strlit("{P}");
}

/// Two runs with different prefixes never touch the same cluster key through the same argument,
/// whatever form the argument has.
pub proof fn no_key_escapes_its_run(key: KeyArgView, p: Seq<char>, q: Seq<char>)
    requires
        p != q,
    ensures
        key.as_key(p).bytes() != key.as_key(q).bytes(),
{
    if key.as_key(p).bytes() == key.as_key(q).bytes() {
        match key {
            KeyArgView::Utf8 { s } => {
                let a = key.as_key(p)->s;
                let b = key.as_key(q)->s;
                lemma_utf8_injective(a, b);
                if occurs(s, prefix_token()) {
                    lemma_token_len();
                    lemma_occurs_hits(s, prefix_token());
                    lemma_replaced_len(s, prefix_token(), p);
                    lemma_replaced_len(s, prefix_token(), q);
                    let h = hits(s, prefix_token()) as int;
                    let x = p.len() - 3;
                    let y = q.len() - 3;
                    assert(x == y) by (nonlinear_arith)
                        requires
                            h * x == h * y,
                            h > 0,
                    ;
                    lemma_replaced_injective(s, prefix_token(), p, q);
                } else {
                    lemma_prepend_injective(p, q, s);
                }
            },
            KeyArgView::B64 { .. } => {
                decode_inverts_encode(encode_utf8(p) + key.bytes());
                decode_inverts_encode(encode_utf8(q) + key.bytes());
                lemma_prepend_injective(encode_utf8(p), encode_utf8(q), key.bytes());
                lemma_utf8_injective(p, q);
            },
        }
    }
}

proof fn lemma_prepend_injective<T>(p: Seq<T>, q: Seq<T>, s: Seq<T>)
    requires
        p + s == q + s,
    ensures
        p == q,
{
    let a = p + s;
    let b = q + s;
    assert(a.len() == p.len() + s.len());
    assert(b.len() == q.len() + s.len());
    assert forall|i: int| 0 <= i < p.len() implies p[i] == q[i] by {
        assert(a[i] == p[i]);
        assert(b[i] == q[i]);
    }
    assert(p =~= q);
}

/// The run's prefix leads this key: it is bytes, or text that either lacks the token or begins
/// with it.
pub open spec fn led_by_prefix(key: KeyArgView) -> bool {
    match key {
        KeyArgView::Utf8 { s } => !occurs(s, prefix_token()) || starts_with(s, prefix_token()),
        KeyArgView::B64 { .. } => true,
    }
}

/// A key that the prefix leads begins with the bytes of the prefix.
pub proof fn a_led_key_is_under_the_prefix(key: KeyArgView, p: Seq<char>)
    requires
        led_by_prefix(key),
    ensures
        starts_with(key.as_key(p).bytes(), encode_utf8(p)),
{
    match key {
        KeyArgView::Utf8 { s } => {
            if occurs(s, prefix_token()) {
                lemma_token_len();
                let tail = replaced(s.skip(3), prefix_token(), p);
                assert(replaced(s, prefix_token(), p) == p + tail);
                lemma_utf8_concat(p, tail);
            } else {
                lemma_utf8_concat(p, s);
            }
        },
        KeyArgView::B64 { .. } => {
            decode_inverts_encode(encode_utf8(p) + key.bytes());
        },
    }
}

/// The bytes of the prefix stand somewhere in every key.
pub proof fn every_key_holds_the_prefix(key: KeyArgView, p: Seq<char>)
    ensures
        occurs(key.as_key(p).bytes(), encode_utf8(p)),
{
    match key {
        KeyArgView::Utf8 { s } => {
            if occurs(s, prefix_token()) {
                lemma_token_len();
                lemma_occurs_hits(s, prefix_token());
                lemma_replacement_occurs(s, prefix_token(), p);
                let r = replaced(s, prefix_token(), p);
                let at = choose|at: int| occurs_at(r, p, at);
                assert(r =~= r.take(at) + p + r.skip(at + p.len())) by {
                    assert forall|i: int| 0 <= i < p.len() implies r[at + i] == p[i] by {}
                }
                lemma_utf8_concat(r.take(at) + p, r.skip(at + p.len()));
                lemma_utf8_concat(r.take(at), p);
                assert(occurs_at(encode_utf8(r), encode_utf8(p), encode_utf8(r.take(at)).len() as int));
            } else {
                a_led_key_is_under_the_prefix(key, p);
            }
        },
        KeyArgView::B64 { .. } => {
            a_led_key_is_under_the_prefix(key, p);
        },
    }
}

proof fn lemma_replacement_occurs<T>(s: Seq<T>, needle: Seq<T>, with: Seq<T>)
    requires
        hits(s, needle) > 0,
    ensures
        occurs(replaced(s, needle, with), with),
    decreases s.len(),
{
    if starts_with(s, needle) {
        assert(occurs_at(replaced(s, needle, with), with, 0));
    } else {
        let rest = s.skip(1);
        lemma_replacement_occurs(rest, needle, with);
        let r = replaced(rest, needle, with);
        let at = choose|at: int| occurs_at(r, with, at);
        let whole = seq![s[0]] + r;
        assert forall|i: int| 0 <= i < with.len() implies whole[at + 1 + i] == with[i] by {
            assert(r[at + i] == with[i]);
        }
        assert(occurs_at(whole, with, at + 1));
    }
}

/// Under prefixes of which neither begins the other, no key of one run is a key of the other run,
/// as long as the prefix leads both keys.
pub proof fn led_keys_of_two_runs_differ(k: KeyArgView, l: KeyArgView, p: Seq<char>, q: Seq<char>)
    requires
        led_by_prefix(k),
        led_by_prefix(l),
        !starts_with(encode_utf8(p), encode_utf8(q)),
        !starts_with(encode_utf8(q), encode_utf8(p)),
    ensures
        k.as_key(p).bytes() != l.as_key(q).bytes(),
{
    a_led_key_is_under_the_prefix(k, p);
    a_led_key_is_under_the_prefix(l, q);
    let a = encode_utf8(p);
    let b = encode_utf8(q);
    let key = k.as_key(p).bytes();
    if key == l.as_key(q).bytes() {
        if a.len() <= b.len() {
            assert forall|i: int| 0 <= i < a.len() implies b[0 + i] == a[i] by {
                assert(key[0 + i] == a[i]);
                assert(key[0 + i] == b[i]);
            }
            assert(occurs_at(b, a, 0));
        } else {
            assert forall|i: int| 0 <= i < b.len() implies a[0 + i] == b[i] by {
                assert(key[0 + i] == a[i]);
                assert(key[0 + i] == b[i]);
            }
            assert(occurs_at(a, b, 0));
        }
    }
}

/// A value that is bytes is the same bytes in every run.
pub proof fn binary_values_are_untouched(b64: Seq<char>, p: Seq<char>)
    ensures
        (KeyArgView::B64 { b64 }).as_value(p).bytes() == (KeyArgView::B64 { b64 }).bytes(),
{
}

proof fn lemma_token_bytes()
    ensures
        is_ascii_chars(prefix_token()),
        encode_utf8(prefix_token()).len() == 3,
{
    reveal_strlit("{P}");
    assert(is_ascii_chars(prefix_token()));
    is_ascii_chars_encode_utf8(prefix_token());
}

/// Text begins with ASCII text exactly when its bytes begin with the bytes of it.
proof fn lemma_ascii_start(s: Seq<char>, t: Seq<char>)
    requires
        is_ascii_chars(t),
    ensures
        starts_with(encode_utf8(s), encode_utf8(t)) <==> starts_with(s, t),
    decreases t.len(),
{
    is_ascii_chars_encode_utf8(t);
    if t.len() > 0 {
        let b = encode_utf8(s);
        let tb = encode_utf8(t);
        let t1 = t.drop_first();
        is_ascii_chars_encode_utf8(t1);
        assert(tb =~= seq![tb[0]] + encode_utf8(t1));
        if starts_with(b, tb) {
            assert(b[0int + 0int] == tb[0]);
            let s1 = s.drop_first();
            encode_utf8_first_scalar(s);
            let b0 = b[0];
            assert((b0 & 0x7F) as u32 == b0 as u32) by (bit_vector)
                requires
                    b0 <= 0x7f,
            ;
            let c: char = s[0];
            let d: char = t[0];
            char_u32_cast(c, c as u32);
            char_u32_cast(d, d as u32);
            assert(c as u32 == b0 as u32);
            assert(d as u8 == b0 && d as u32 <= 0x7f);
            assert(c as u32 == d as u32);
            let b1 = encode_utf8(s1);
            assert(b =~= seq![b0] + b1);
            assert forall|i: int| 0 <= i < encode_utf8(t1).len() implies b1[0 + i] == encode_utf8(
                t1,
            )[i] by {
                assert(b[0 + (i + 1)] == tb[i + 1]);
            }
            lemma_ascii_start(s1, t1);
            assert forall|i: int| 0 <= i < t.len() implies s[0 + i] == t[i] by {
                if i > 0 {
                    assert(s1[0 + (i - 1)] == t1[i - 1]);
                }
            }
        }
        if starts_with(s, t) {
            let rest = s.skip(t.len() as int);
            assert(s =~= t + rest) by {
                assert forall|i: int| 0 <= i < t.len() implies s[i] == t[i] by {
                    assert(s[0 + i] == t[i]);
                }
            }
            lemma_utf8_concat(t, rest);
        }
    }
}

/// Where the needle does not begin, replacing copies.
proof fn lemma_replaced_copies<T>(s: Seq<T>, needle: Seq<T>, with: Seq<T>, n: int)
    requires
        0 <= n <= s.len(),
        forall|k: int| 0 <= k < n ==> !starts_with(#[trigger] s.skip(k), needle),
    ensures
        replaced(s, needle, with) == s.take(n) + replaced(s.skip(n), needle, with),
    decreases n,
{
    if n == 0 {
        assert(s.skip(0) =~= s);
        assert(s.take(0) + replaced(s, needle, with) =~= replaced(s, needle, with));
    } else {
        let rest = s.skip(1);
        assert(s.skip(0) =~= s);
        assert(!starts_with(s, needle));
        assert forall|k: int| 0 <= k < n - 1 implies !starts_with(
            #[trigger] rest.skip(k),
            needle,
        ) by {
            assert(rest.skip(k) =~= s.skip(k + 1));
        }
        lemma_replaced_copies(rest, needle, with, n - 1);
        assert(rest.skip(n - 1) =~= s.skip(n));
        let tail = replaced(s.skip(n), needle, with);
        if needle.len() > 0 {
            assert(seq![s[0]] + (rest.take(n - 1) + tail) =~= s.take(n) + tail);
        } else {
            assert(s =~= s.take(n) + s.skip(n));
        }
    }
}

/// Where the needle does not occur, replacing changes nothing.
proof fn lemma_replaced_absent<T>(s: Seq<T>, needle: Seq<T>, with: Seq<T>)
    requires
        !occurs(s, needle),
    ensures
        replaced(s, needle, with) == s,
{
    assert forall|k: int| 0 <= k < s.len() implies !starts_with(#[trigger] s.skip(k), needle) by {
        if starts_with(s.skip(k), needle) {
            assert forall|i: int| 0 <= i < needle.len() implies s[k + i] == needle[i] by {
                assert(s.skip(k)[0 + i] == needle[i]);
            }
            assert(occurs_at(s, needle, k));
        }
    }
    lemma_replaced_copies(s, needle, with, s.len() as int);
    assert(s.skip(s.len() as int).len() == 0);
    assert(s.take(s.len() as int) + s.skip(s.len() as int) =~= s);
}

/// Replacing keeps what stands before the first occurrence, puts the replacement for the occurrence,
/// and goes on behind it.
pub proof fn replacing_at_the_first_occurrence<T>(
    before: Seq<T>,
    needle: Seq<T>,
    behind: Seq<T>,
    with: Seq<T>,
)
    requires
        needle.len() > 0,
        forall|k: int|
            0 <= k < before.len() ==> !#[trigger] occurs_at(before + needle + behind, needle, k),
    ensures
        replaced(before + needle + behind, needle, with) == before + with + replaced(
            behind,
            needle,
            with,
        ),
{
    let s = before + needle + behind;
    let n = before.len() as int;
    assert forall|k: int| 0 <= k < n implies !starts_with(#[trigger] s.skip(k), needle) by {
        if starts_with(s.skip(k), needle) {
            assert forall|i: int| 0 <= i < needle.len() implies s[k + i] == needle[i] by {
                assert(s.skip(k)[0 + i] == needle[i]);
            }
            assert(occurs_at(s, needle, k));
        }
    }
    lemma_replaced_copies(s, needle, with, n);
    let rest = s.skip(n);
    assert(rest =~= needle + behind);
    assert(starts_with(rest, needle));
    assert(rest.skip(needle.len() as int) =~= behind);
    assert(s.take(n) =~= before);
    let tail = replaced(behind, needle, with);
    assert(before + (with + tail) =~= before + with + tail);
}

/// Replacing what does not occur, or nothing, changes nothing.
pub proof fn replacing_what_does_not_occur<T>(s: Seq<T>, needle: Seq<T>, with: Seq<T>)
    requires
        needle.len() == 0 || !occurs(s, needle),
    ensures
        replaced(s, needle, with) == s,
{
    if needle.len() > 0 {
        lemma_replaced_absent(s, needle, with);
    }
}

/// A key is the prefix and what was written: text without the token and bytes have the prefix in
/// front and are kept whole, and text with the token has the prefix in place of the first token, and
/// so on behind it.
pub proof fn a_key_is_the_prefix_and_what_was_written(
    s: Seq<char>,
    before: Seq<char>,
    behind: Seq<char>,
    b64: Seq<char>,
    p: Seq<char>,
)
    ensures
        !occurs(s, "{P}"@) ==> (KeyArgView::Utf8 { s }).as_key(p).bytes() == encode_utf8(p)
            + encode_utf8(s),
        (KeyArgView::B64 { b64 }).as_key(p).bytes() == encode_utf8(p) + (KeyArgView::B64 {
            b64,
        }).bytes(),
        (forall|k: int|
            0 <= k < before.len() ==> !#[trigger] occurs_at(before + "{P}"@ + behind, "{P}"@, k))
            ==> (KeyArgView::Utf8 { s: before + "{P}"@ + behind }).as_key(p).bytes() == encode_utf8(
            before,
        ) + encode_utf8(p) + (KeyArgView::Utf8 { s: behind }).as_value(p).bytes(),
{
    let token = "{P}"@;
    lemma_token_len();
    lemma_utf8_concat(p, s);
    decode_inverts_encode(encode_utf8(p) + (KeyArgView::B64 { b64 }).bytes());
    if forall|k: int| 0 <= k < before.len() ==> !#[trigger] occurs_at(before + token + behind, token, k) {
        replacing_at_the_first_occurrence(before, token, behind, p);
        where_something_occurs(before, token, behind);
        let tail = replaced(behind, token, p);
        lemma_utf8_concat(before + p, tail);
        lemma_utf8_concat(before, p);
    }
}

/// A value is what was written: text without the token and bytes are kept whole, and text with the
/// token has the prefix in place of the first token, and so on behind it.
pub proof fn a_value_is_what_was_written(
    s: Seq<char>,
    before: Seq<char>,
    behind: Seq<char>,
    b64: Seq<char>,
    p: Seq<char>,
)
    ensures
        !occurs(s, "{P}"@) ==> (KeyArgView::Utf8 { s }).as_value(p).bytes() == encode_utf8(s),
        (KeyArgView::B64 { b64 }).as_value(p) == (KeyArgView::B64 { b64 }),
        (forall|k: int|
            0 <= k < before.len() ==> !#[trigger] occurs_at(before + "{P}"@ + behind, "{P}"@, k))
            ==> (KeyArgView::Utf8 { s: before + "{P}"@ + behind }).as_value(p).bytes()
            == encode_utf8(before) + encode_utf8(p) + (KeyArgView::Utf8 { s: behind }).as_value(
            p,
        ).bytes(),
{
    let token = "{P}"@;
    lemma_token_len();
    if !occurs(s, token) {
        lemma_replaced_absent(s, token, p);
    }
    if forall|k: int| 0 <= k < before.len() ==> !#[trigger] occurs_at(before + token + behind, token, k) {
        replacing_at_the_first_occurrence(before, token, behind, p);
        let tail = replaced(behind, token, p);
        lemma_utf8_concat(before + p, tail);
        lemma_utf8_concat(before, p);
    }
}

/// An argument spells its text, or the bytes that it was encoded from.
pub proof fn an_argument_spells_what_was_meant(s: Seq<char>, raw: Seq<u8>)
    ensures
        (KeyArgView::Utf8 { s }).bytes() == encode_utf8(s),
        (KeyArgView::B64 { b64: encoded(raw) }).bytes() == raw,
{
    decode_inverts_encode(raw);
}

/// Redaction loses nothing but the prefix: what is shown gives back the bytes with the token in
/// place of the prefix, as their text where they are text, and as base64 where they are not.
pub proof fn redaction_loses_nothing_but_the_prefix(raw: Seq<u8>, p: Seq<char>)
    ensures
        ({
            let clean = replaced(raw, encode_utf8(p), encode_utf8("{P}"@));
            if valid_utf8(clean) {
                encode_utf8(redacted(raw, p)) == clean
            } else {
                decoded(redacted(raw, p)) == Some(clean)
            }
        }),
        p.len() == 0 || !occurs(raw, encode_utf8(p)) ==> if valid_utf8(raw) {
            encode_utf8(redacted(raw, p)) == raw
        } else {
            decoded(redacted(raw, p)) == Some(raw)
        },
{
    let clean = replaced(raw, encode_utf8(p), encode_utf8("{P}"@));
    if valid_utf8(clean) {
        decode_utf8_encode_utf8(clean);
    }
    decode_inverts_encode(clean);
    if p.len() == 0 || !occurs(raw, encode_utf8(p)) {
        if p.len() == 0 {
            assert(encode_utf8(p).len() == 0);
        }
        replacing_what_does_not_occur(raw, encode_utf8(p), encode_utf8("{P}"@));
    }
}

/// Replacing ASCII text and encoding commute.
proof fn lemma_replaced_utf8(s: Seq<char>, t: Seq<char>, with: Seq<char>)
    requires
        is_ascii_chars(t),
        t.len() > 0,
    ensures
        encode_utf8(replaced(s, t, with)) == replaced(
            encode_utf8(s),
            encode_utf8(t),
            encode_utf8(with),
        ),
    decreases s.len(),
{
    let b = encode_utf8(s);
    let tb = encode_utf8(t);
    let wb = encode_utf8(with);
    is_ascii_chars_encode_utf8(t);
    if s.len() > 0 {
        lemma_ascii_start(s, t);
        if starts_with(s, t) {
            let rest = s.skip(t.len() as int);
            assert(s =~= t + rest) by {
                assert forall|i: int| 0 <= i < t.len() implies s[i] == t[i] by {
                    assert(s[0 + i] == t[i]);
                }
            }
            lemma_utf8_concat(t, rest);
            assert(b.skip(tb.len() as int) =~= encode_utf8(rest));
            lemma_replaced_utf8(rest, t, with);
            lemma_utf8_concat(with, replaced(rest, t, with));
        } else {
            let rest = s.skip(1);
            assert(rest =~= s.drop_first());
            let head = encode_scalar(s[0] as u32);
            let n = head.len() as int;
            encode_utf8_first_scalar(s);
            assert forall|k: int| 0 <= k < n implies !starts_with(#[trigger] b.skip(k), tb) by {
                if k == 0 {
                    assert(b.skip(0) =~= b);
                } else if starts_with(b.skip(k), tb) {
                    assert(b.skip(k)[0int + 0int] == tb[0]);
                    assert(is_continuation_byte(b[k]));
                }
            }
            lemma_replaced_copies(b, tb, wb, n);
            assert(b.take(n) =~= head);
            assert(b.skip(n) =~= encode_utf8(rest));
            lemma_replaced_utf8(rest, t, with);
            let tail = replaced(rest, t, with);
            assert((seq![s[0]] + tail).drop_first() =~= tail);
        }
    }
}

/// In the text that `template` becomes when `p` is put for the token, `p` begins only where it
/// was put.
pub open spec fn only_where_put<T>(template: Seq<T>, token: Seq<T>, p: Seq<T>) -> bool
    decreases template.len(),
{
    if template.len() == 0 || token.len() == 0 {
        true
    } else if starts_with(template, token) {
        only_where_put(template.skip(token.len() as int), token, p)
    } else {
        &&& !starts_with(replaced(template, token, p), p)
        &&& only_where_put(template.skip(1), token, p)
    }
}

/// Putting `p` for the token, and then the token for `p`, gives the template back.
proof fn lemma_put_and_redacted<T>(template: Seq<T>, token: Seq<T>, p: Seq<T>)
    requires
        token.len() > 0,
        p.len() > 0,
        only_where_put(template, token, p),
    ensures
        replaced(replaced(template, token, p), p, token) == template,
    decreases template.len(),
{
    if template.len() > 0 {
        let filled = replaced(template, token, p);
        if starts_with(template, token) {
            let rest = template.skip(token.len() as int);
            lemma_put_and_redacted(rest, token, p);
            let tail = replaced(rest, token, p);
            assert(filled == p + tail);
            assert(starts_with(filled, p));
            assert(filled.skip(p.len() as int) =~= tail);
            assert(token + rest =~= template) by {
                assert forall|i: int| 0 <= i < token.len() implies template[i] == token[i] by {
                    assert(template[0 + i] == token[i]);
                }
            }
        } else {
            let rest = template.skip(1);
            lemma_put_and_redacted(rest, token, p);
            let tail = replaced(rest, token, p);
            assert(filled == seq![template[0]] + tail);
            assert(filled.skip(1) =~= tail);
            assert(seq![template[0]] + rest =~= template);
        }
    }
}

/// A leading `p` that does not occur behind itself is redacted to the token.
proof fn lemma_lead_redacted<T>(own: Seq<T>, token: Seq<T>, p: Seq<T>)
    requires
        p.len() > 0,
        !occurs(own, p),
    ensures
        replaced(p + own, p, token) == token + own,
{
    let whole = p + own;
    assert(starts_with(whole, p));
    assert(whole.skip(p.len() as int) =~= own);
    lemma_replaced_absent(own, p, token);
}

/// The run's prefix stands in the key only where the run put it.
pub open spec fn marked_only_by_its_run(key: KeyArgView, p: Seq<char>) -> bool {
    match key {
        KeyArgView::Utf8 { s } => if occurs(s, prefix_token()) {
            only_where_put(encode_utf8(s), encode_utf8(prefix_token()), encode_utf8(p))
        } else {
            !occurs(encode_utf8(s), encode_utf8(p))
        },
        KeyArgView::B64 { .. } => !occurs(key.bytes(), encode_utf8(p)),
    }
}

proof fn lemma_prefix_bytes(p: Seq<char>)
    requires
        p.len() > 0,
    ensures
        encode_utf8(p).len() > 0,
{
    encode_utf8_first_scalar(p);
}

/// The key as it is compared, whatever the run.
spec fn compared_key(key: KeyArgView) -> Seq<u8> {
    match key {
        KeyArgView::Utf8 { s } => if occurs(s, prefix_token()) {
            encode_utf8(s)
        } else {
            encode_utf8(prefix_token()) + encode_utf8(s)
        },
        KeyArgView::B64 { .. } => encode_utf8(prefix_token()) + key.bytes(),
    }
}

proof fn lemma_compared_key(key: KeyArgView, p: Seq<char>)
    requires
        p.len() > 0,
        marked_only_by_its_run(key, p),
    ensures
        replaced(key.as_key(p).bytes(), encode_utf8(p), encode_utf8(prefix_token()))
            == compared_key(key),
{
    let token = encode_utf8(prefix_token());
    let pb = encode_utf8(p);
    lemma_token_bytes();
    lemma_token_len();
    lemma_prefix_bytes(p);
    match key {
        KeyArgView::Utf8 { s } => {
            if occurs(s, prefix_token()) {
                lemma_replaced_utf8(s, prefix_token(), p);
                lemma_put_and_redacted(encode_utf8(s), token, pb);
            } else {
                lemma_utf8_concat(p, s);
                lemma_lead_redacted(encode_utf8(s), token, pb);
            }
        },
        KeyArgView::B64 { .. } => {
            decode_inverts_encode(pb + key.bytes());
            lemma_lead_redacted(key.bytes(), token, pb);
        },
    }
}

/// Two runs that use the same key see the same key once each run's prefix is redacted, whatever
/// form the key has, unless a prefix happens to stand in the key besides.
pub proof fn keys_of_two_runs_compare_equal(key: KeyArgView, p: Seq<char>, q: Seq<char>)
    requires
        p.len() > 0,
        q.len() > 0,
        marked_only_by_its_run(key, p),
        marked_only_by_its_run(key, q),
    ensures
        redacted(key.as_key(p).bytes(), p) == redacted(key.as_key(q).bytes(), q),
{
    lemma_compared_key(key, p);
    lemma_compared_key(key, q);
}

/// Two runs that store the same value, which may hold a key of the run, see the same value once
/// each run's prefix is redacted, unless a prefix happens to stand in it besides.
pub proof fn values_of_two_runs_compare_equal(value: KeyArgView, p: Seq<char>, q: Seq<char>)
    requires
        p.len() > 0,
        q.len() > 0,
        match value {
            KeyArgView::Utf8 { s } => {
                let token = encode_utf8(prefix_token());
                &&& only_where_put(encode_utf8(s), token, encode_utf8(p))
                &&& only_where_put(encode_utf8(s), token, encode_utf8(q))
            },
            KeyArgView::B64 { .. } => {
                &&& !occurs(value.bytes(), encode_utf8(p))
                &&& !occurs(value.bytes(), encode_utf8(q))
            },
        },
    ensures
        redacted(value.as_value(p).bytes(), p) == redacted(value.as_value(q).bytes(), q),
{
    let token = encode_utf8(prefix_token());
    lemma_token_bytes();
    lemma_token_len();
    lemma_prefix_bytes(p);
    lemma_prefix_bytes(q);
    match value {
        KeyArgView::Utf8 { s } => {
            lemma_replaced_utf8(s, prefix_token(), p);
            lemma_replaced_utf8(s, prefix_token(), q);
            lemma_put_and_redacted(encode_utf8(s), token, encode_utf8(p));
            lemma_put_and_redacted(encode_utf8(s), token, encode_utf8(q));
        },
        KeyArgView::B64 { .. } => {
            lemma_replaced_absent(value.bytes(), encode_utf8(p), token);
            lemma_replaced_absent(value.bytes(), encode_utf8(q), token);
        },
    }
}

} // verus!
