//! Text: decimal numbers, joining, splitting, and finding and replacing.

use vstd::prelude::*;
use vstd::string::*;
use vstd::utf8::*;

use crate::order::texts;

verus! {

/// `String::push` appends one character.
pub assume_specification[ String::push ](s: &mut String, c: char)
    ensures
        final(s)@ == old(s)@.push(c),
;

/// `String::from_utf8` accepts exactly the valid UTF-8 byte strings, and the text it
/// returns has those bytes as its UTF-8 encoding.
#[verifier::external_body]
pub(crate) fn utf8_text(bytes: Vec<u8>) -> (r: Option<String>)
    ensures
        r is Some <==> valid_utf8(bytes@),
        r is Some ==> encode_utf8(r->0@) == bytes@,
{
    String::from_utf8(bytes).ok()
}

/// The decimal digit `d`.
pub open spec fn digit(d: int) -> char {
    (d + '0' as int) as char
}

/// `n` in decimal, without leading zeros.
pub open spec fn decimal(n: nat) -> Seq<char>
    decreases n,
{
    if n < 10 {
        seq![digit(n as int)]
    } else {
        decimal(n / 10).push(digit((n % 10) as int))
    }
}

/// The items with `sep` between each two of them.
pub open spec fn joined(items: Seq<Seq<char>>, sep: Seq<char>) -> Seq<char>
    decreases items.len(),
{
    if items.len() == 0 {
        Seq::empty()
    } else if items.len() == 1 {
        items[0]
    } else {
        joined(items.drop_last(), sep) + sep + items.last()
    }
}

/// `needle` occurs in `s` at position `at`.
pub open spec fn occurs_at<T>(s: Seq<T>, needle: Seq<T>, at: int) -> bool {
    &&& 0 <= at
    &&& at + needle.len() <= s.len()
    &&& forall|i: int| 0 <= i < needle.len() ==> s[at + i] == needle[i]
}

/// `needle` occurs somewhere in `s`.
pub open spec fn occurs<T>(s: Seq<T>, needle: Seq<T>) -> bool {
    exists|at: int| occurs_at(s, needle, at)
}

/// `s` begins with `prefix`.
pub open spec fn starts_with<T>(s: Seq<T>, prefix: Seq<T>) -> bool {
    occurs_at(s, prefix, 0)
}

/// `s` with every occurrence of `needle` replaced by `with`, read from the left without
/// overlap. An empty needle occurs nowhere.
pub open spec fn replaced<T>(s: Seq<T>, needle: Seq<T>, with: Seq<T>) -> Seq<T>
    decreases s.len(),
{
    if needle.len() == 0 || s.len() == 0 {
        s
    } else if starts_with(s, needle) {
        with + replaced(s.skip(needle.len() as int), needle, with)
    } else {
        seq![s[0]] + replaced(s.skip(1), needle, with)
    }
}

/// The parts of `s` between the occurrences of `sep`.
pub open spec fn split_on<T>(s: Seq<T>, sep: T) -> Seq<Seq<T>>
    decreases s.len(),
{
    if s.len() == 0 {
        seq![Seq::empty()]
    } else {
        let before = split_on(s.drop_last(), sep);
        if s.last() == sep {
            before.push(Seq::empty())
        } else {
            before.drop_last().push(before.last().push(s.last()))
        }
    }
}

/// Something begins with a prefix exactly when it is the prefix and something behind it.
pub proof fn what_begins_with_a_prefix<T>(s: Seq<T>, prefix: Seq<T>)
    ensures
        starts_with(s, prefix) <==> exists|rest: Seq<T>| s == #[trigger] (prefix + rest),
{
    if starts_with(s, prefix) {
        let rest = s.skip(prefix.len() as int);
        assert forall|i: int| 0 <= i < prefix.len() implies s[i] == prefix[i] by {
            assert(s[0 + i] == prefix[i]);
        }
        assert(s =~= prefix + rest);
    }
    if exists|rest: Seq<T>| s == #[trigger] (prefix + rest) {
        let rest = choose|rest: Seq<T>| s == #[trigger] (prefix + rest);
        assert((prefix + rest).len() == prefix.len() + rest.len());
    }
}

/// Something occurs exactly where it stands between what is before it and what is behind it.
pub proof fn where_something_occurs<T>(before: Seq<T>, needle: Seq<T>, behind: Seq<T>)
    ensures
        occurs_at(before + needle + behind, needle, before.len() as int),
        occurs(before + needle + behind, needle),
{
    assert(occurs_at(before + needle + behind, needle, before.len() as int));
}

/// No `sep` begins in `item` when `sep` follows it.
pub open spec fn ends_before<T>(item: Seq<T>, sep: Seq<T>) -> bool {
    forall|k: int| 0 <= k < item.len() ==> !#[trigger] occurs_at(item + sep, sep, k)
}

/// Where a separator that begins with something that is not repeated in it does not occur, it does
/// not begin either.
pub proof fn lemma_ends_before<T>(item: Seq<T>, sep: Seq<T>)
    requires
        sep.len() > 0,
        !occurs(item, sep),
        forall|i: int| 1 <= i < sep.len() ==> #[trigger] sep[i] != sep[0],
    ensures
        ends_before(item, sep),
{
    let whole = item + sep;
    assert forall|k: int| 0 <= k < item.len() implies !#[trigger] occurs_at(whole, sep, k) by {
        if occurs_at(whole, sep, k) {
            if k + sep.len() <= item.len() {
                assert forall|i: int| 0 <= i < sep.len() implies item[k + i] == sep[i] by {
                    assert(whole[k + i] == sep[i]);
                }
                assert(occurs_at(item, sep, k));
            } else {
                let j = item.len() - k;
                assert(whole[k + j] == sep[j]);
                assert(whole[k + j] == sep[0]);
            }
        }
    }
}

/// What stands before the first separator, and what stands behind it, can be told.
pub proof fn lemma_first_separator<T>(a: Seq<T>, r: Seq<T>, b: Seq<T>, t: Seq<T>, sep: Seq<T>)
    requires
        sep.len() > 0,
        ends_before(a, sep),
        ends_before(b, sep),
        a + sep + r == b + sep + t,
    ensures
        a == b,
        r == t,
{
    let w = a + sep + r;
    lemma_separator_not_later(a, r, b, t, sep);
    lemma_separator_not_later(b, t, a, r, sep);
    assert(w.take(a.len() as int) =~= a);
    assert((b + sep + t).take(b.len() as int) =~= b);
    assert(w.skip((a.len() + sep.len()) as int) =~= r);
    assert((b + sep + t).skip((b.len() + sep.len()) as int) =~= t);
}

proof fn lemma_separator_not_later<T>(a: Seq<T>, r: Seq<T>, b: Seq<T>, t: Seq<T>, sep: Seq<T>)
    requires
        sep.len() > 0,
        ends_before(b, sep),
        a + sep + r == b + sep + t,
    ensures
        b.len() <= a.len(),
{
    let w = a + sep + r;
    let whole = b + sep;
    if a.len() < b.len() {
        assert forall|i: int| 0 <= i < sep.len() implies whole[a.len() + i] == sep[i] by {
            assert(w[a.len() + i] == sep[i]);
            assert((b + sep + t)[a.len() + i] == whole[a.len() + i]);
        }
        assert(occurs_at(whole, sep, a.len() as int));
    }
}

proof fn lemma_joined_from_the_left(items: Seq<Seq<char>>, sep: Seq<char>)
    requires
        items.len() >= 2,
    ensures
        joined(items, sep) == items[0] + sep + joined(items.skip(1), sep),
    decreases items.len(),
{
    let init = items.drop_last();
    let tail = items.skip(1);
    if items.len() == 2 {
        assert(joined(init, sep) == init[0]);
        assert(joined(tail, sep) == tail[0]);
    } else {
        lemma_joined_from_the_left(init, sep);
        assert(init.skip(1) =~= tail.drop_last());
        assert(tail.last() == items.last());
        let mid = joined(tail.drop_last(), sep);
        assert((items[0] + sep + mid) + sep + items.last() =~= items[0] + sep + (mid + sep
            + items.last()));
    }
}

/// Joining loses nothing: items that are not empty, and in which no separator begins, can be told
/// from what they are joined to.
pub proof fn joining_loses_nothing(x: Seq<Seq<char>>, y: Seq<Seq<char>>, sep: Seq<char>)
    requires
        sep.len() > 0,
        forall|i: int| 0 <= i < x.len() ==> (#[trigger] x[i]).len() > 0 && ends_before(x[i], sep),
        forall|i: int| 0 <= i < y.len() ==> (#[trigger] y[i]).len() > 0 && ends_before(y[i], sep),
        joined(x, sep) == joined(y, sep),
    ensures
        x == y,
    decreases x.len(),
{
    if x.len() >= 2 && y.len() >= 2 {
        lemma_joined_from_the_left(x, sep);
        lemma_joined_from_the_left(y, sep);
        assert(ends_before(x[0], sep) && ends_before(y[0], sep));
        lemma_first_separator(
            x[0],
            joined(x.skip(1), sep),
            y[0],
            joined(y.skip(1), sep),
            sep,
        );
        assert forall|i: int| 0 <= i < x.len() - 1 implies (#[trigger] x.skip(1)[i]).len() > 0
            && ends_before(x.skip(1)[i], sep) by {
            assert(x[i + 1].len() > 0);
        }
        assert forall|i: int| 0 <= i < y.len() - 1 implies (#[trigger] y.skip(1)[i]).len() > 0
            && ends_before(y.skip(1)[i], sep) by {
            assert(y[i + 1].len() > 0);
        }
        joining_loses_nothing(x.skip(1), y.skip(1), sep);
        assert(x =~= seq![x[0]] + x.skip(1));
        assert(y =~= seq![y[0]] + y.skip(1));
    } else if x.len() >= 2 {
        lemma_joined_too_long(x, y, sep);
    } else if y.len() >= 2 {
        lemma_joined_too_long(y, x, sep);
    } else {
        if x.len() == 1 {
            assert(x[0].len() > 0);
        }
        if y.len() == 1 {
            assert(y[0].len() > 0);
        }
        assert(x =~= y);
    }
}

proof fn lemma_joined_too_long(x: Seq<Seq<char>>, y: Seq<Seq<char>>, sep: Seq<char>)
    requires
        sep.len() > 0,
        x.len() >= 2,
        y.len() <= 1,
        forall|i: int| 0 <= i < x.len() ==> (#[trigger] x[i]).len() > 0,
        forall|i: int| 0 <= i < y.len() ==> ends_before(#[trigger] y[i], sep),
    ensures
        joined(x, sep) != joined(y, sep),
{
    lemma_joined_from_the_left(x, sep);
    assert(x[0].len() > 0);
    assert(joined(x, sep).len() > 0);
    assert(y.len() == 0 ==> joined(y, sep).len() == 0);
    if y.len() == 1 && joined(x, sep) == joined(y, sep) {
        let item = y[0];
        assert(ends_before(item, sep));
        let rest = joined(x.skip(1), sep);
        assert forall|i: int| 0 <= i < sep.len() implies (item + sep)[x[0].len() + i] == sep[i] by {
            assert((x[0] + sep + rest)[x[0].len() + i] == sep[i]);
        }
        assert(occurs_at(item + sep, sep, x[0].len() as int));
        assert(x[0].len() < item.len());
    }
}

/// Splitting loses nothing: joined by the separator, the parts are the whole again, and no part
/// holds the separator.
pub proof fn splitting_loses_nothing(s: Seq<char>, sep: char)
    ensures
        split_on(s, sep).len() > 0,
        joined(split_on(s, sep), seq![sep]) == s,
        forall|i: int|
            0 <= i < split_on(s, sep).len() ==> !(#[trigger] split_on(s, sep)[i]).contains(sep),
    decreases s.len(),
{
    let parts = split_on(s, sep);
    if s.len() == 0 {
        assert(joined(parts, seq![sep]) =~= s);
    } else {
        let init = s.drop_last();
        let before = split_on(init, sep);
        splitting_loses_nothing(init, sep);
        assert(s =~= init.push(s.last()));
        if s.last() == sep {
            assert(parts.drop_last() =~= before);
            assert(joined(parts, seq![sep]) =~= s);
            assert forall|i: int| 0 <= i < parts.len() implies !(#[trigger] parts[i]).contains(
                sep,
            ) by {
                if i < before.len() {
                    assert(!before[i].contains(sep));
                }
            }
        } else {
            let last = before.last();
            assert(parts.drop_last() =~= before.drop_last());
            assert(parts.last() == last.push(s.last()));
            if before.len() == 1 {
                assert(joined(before, seq![sep]) == before[0]);
            } else {
                assert(joined(before, seq![sep]) == joined(before.drop_last(), seq![sep])
                    + seq![sep] + last);
            }
            assert(joined(parts, seq![sep]) =~= s);
            assert(!before[before.len() - 1].contains(sep));
            assert forall|i: int| 0 <= i < parts.len() implies !(#[trigger] parts[i]).contains(
                sep,
            ) by {
                if i < before.len() - 1 {
                    assert(!before[i].contains(sep));
                    assert(parts[i] == before[i]);
                } else if parts[i].contains(sep) {
                    let k = choose|k: int| 0 <= k < parts[i].len() && parts[i][k] == sep;
                    assert(last[k] == sep);
                }
            }
        }
    }
}

/// Different numbers have different decimals.
pub proof fn decimals_tell_numbers_apart(n: nat, m: nat)
    requires
        decimal(n) == decimal(m),
    ensures
        n == m,
    decreases n,
{
    lemma_decimal_len(n);
    lemma_decimal_len(m);
    if n < 10 {
        if m >= 10 {
            lemma_decimal_len(m / 10);
        }
        assert(decimal(n)[0] == digit(n as int));
        assert(decimal(m)[0] == digit(m as int));
    } else {
        if m < 10 {
            lemma_decimal_len(n / 10);
        } else {
            let a = decimal(n / 10);
            let b = decimal(m / 10);
            let x = digit((n % 10) as int);
            let y = digit((m % 10) as int);
            assert(a.push(x).drop_last() =~= a);
            assert(b.push(y).drop_last() =~= b);
            assert(a.push(x).last() == x);
            assert(b.push(y).last() == y);
            decimals_tell_numbers_apart(n / 10, m / 10);
        }
    }
}

/// A decimal is read from the left: behind a number that is not zero, one more digit makes ten times
/// the number and the digit.
pub proof fn a_decimal_is_read_from_the_left(n: nat, d: nat)
    requires
        d < 10,
    ensures
        n > 0 ==> decimal(10 * n + d) == decimal(n).push("0123456789"@[d as int]),
        decimal(d) == seq!["0123456789"@[d as int]],
{
    reveal_strlit("0123456789");
    assert((10 * n + d) / 10 == n && (10 * n + d) % 10 == d);
}

/// Joining puts the separator between each two items and nowhere else.
pub proof fn joining_puts_the_separator_between(
    items: Seq<Seq<char>>,
    item: Seq<char>,
    sep: Seq<char>,
)
    ensures
        joined(Seq::empty(), sep).len() == 0,
        joined(seq![item], sep) == item,
        items.len() > 0 ==> joined(items.push(item), sep) == joined(items, sep) + sep + item,
{
    assert(items.push(item).drop_last() =~= items);
}

/// A decimal is digits, and at least one of them.
pub proof fn lemma_digits(n: nat)
    ensures
        decimal(n).len() > 0,
        forall|i: int| 0 <= i < decimal(n).len() ==> '0' <= #[trigger] decimal(n)[i] <= '9',
    decreases n,
{
    if n >= 10 {
        lemma_digits(n / 10);
        let s = decimal(n / 10);
        assert forall|i: int| 0 <= i < decimal(n).len() implies '0' <= #[trigger] decimal(n)[i]
            <= '9' by {
            if i < s.len() {
                assert('0' <= s[i] <= '9');
            }
        }
    }
}

proof fn lemma_decimal_len(n: nat)
    ensures
        decimal(n).len() >= 1,
{
}

/// `n` in decimal.
pub fn decimal_text(n: u128) -> (r: String)
    ensures
        r@ == decimal(n as nat),
    decreases n,
{
    let mut out: String = if n < 10 {
        String::new()
    } else {
        decimal_text(n / 10)
    };
    let d: u8 = (n % 10) as u8;
    out.push((48u8 + d) as char);
    proof {
        assert(((48u8 + d) as u8) as char == digit(d as int));
        if n < 10 {
            assert(out@ =~= seq![digit(n as int)]);
        }
    }
    out
}

/// The characters of `s`.
pub(crate) fn chars_of(s: &str) -> (r: Vec<char>)
    ensures
        r@ == s@,
{
    let mut out: Vec<char> = Vec::new();
    for c in it: s.chars()
        invariant
            out@.len() == it.index(),
            it.seq() == s@,
            forall|i: int| 0 <= i < out@.len() ==> out@[i] == it.seq()[i],
    {
        out.push(c);
    }
    assert(out@ =~= s@);
    out
}

/// The items with `sep` between each two of them.
pub fn join(items: &Vec<String>, sep: &str) -> (r: String)
    ensures
        r@ == joined(texts(items@), sep@),
{
    let mut out: String = String::new();
    let mut i: usize = 0;
    assert(texts(items@).take(0) =~= Seq::<Seq<char>>::empty());
    while i < items.len()
        invariant
            i <= items@.len(),
            out@ == joined(texts(items@).take(i as int), sep@),
        decreases items@.len() - i,
    {
        if i > 0 {
            out.append(sep);
        }
        out.append(items[i].as_str());
        proof {
            let next = texts(items@).take(i + 1);
            assert(next.drop_last() =~= texts(items@).take(i as int));
            assert(next.last() == items@[i as int]@);
            if i == 0 {
                assert(out@ =~= next[0]);
            }
        }
        i = i + 1;
    }
    assert(texts(items@).take(i as int) =~= texts(items@));
    out
}

/// Does `needle` occur in `s` at position `at`?
fn occurs_at_bytes(s: &[u8], needle: &[u8], at: usize) -> (r: bool)
    requires
        at <= s@.len(),
    ensures
        r == occurs_at(s@, needle@, at as int),
{
    if s.len() - at < needle.len() {
        return false;
    }
    let mut i: usize = 0;
    while i < needle.len()
        invariant
            i <= needle@.len(),
            at + needle@.len() <= s.len(),
            forall|j: int| 0 <= j < i ==> s@[at + j] == needle@[j],
        decreases needle@.len() - i,
    {
        if s[at + i] != needle[i] {
            assert(s@[at + i] != needle@[i as int]);
            return false;
        }
        i = i + 1;
    }
    true
}

/// One step of replacing from the left, at an occurrence of `needle`.
proof fn lemma_replace_hit<T>(done: Seq<T>, s: Seq<T>, needle: Seq<T>, with: Seq<T>, i: int)
    requires
        0 <= i < s.len(),
        needle.len() > 0,
        occurs_at(s, needle, i),
    ensures
        done + replaced(s.skip(i), needle, with) == (done + with) + replaced(
            s.skip(i + needle.len()),
            needle,
            with,
        ),
{
    let rest = s.skip(i);
    assert forall|k: int| 0 <= k < needle.len() implies rest[0 + k] == needle[k] by {
        assert(s[i + k] == needle[k]);
    }
    assert(starts_with(rest, needle));
    assert(rest.skip(needle.len() as int) =~= s.skip(i + needle.len()));
    let tail = replaced(s.skip(i + needle.len()), needle, with);
    assert(done + (with + tail) =~= (done + with) + tail);
}

/// One step of replacing from the left, where `needle` does not occur.
proof fn lemma_replace_miss<T>(done: Seq<T>, s: Seq<T>, needle: Seq<T>, with: Seq<T>, i: int)
    requires
        0 <= i < s.len(),
        needle.len() == 0 || !occurs_at(s, needle, i),
    ensures
        done + replaced(s.skip(i), needle, with) == done.push(s[i]) + replaced(
            s.skip(i + 1),
            needle,
            with,
        ),
{
    let rest = s.skip(i);
    if needle.len() > 0 && starts_with(rest, needle) {
        assert forall|k: int| 0 <= k < needle.len() implies s[i + k] == needle[k] by {
            assert(rest[0 + k] == needle[k]);
        }
        assert(occurs_at(s, needle, i));
    }
    assert(rest.skip(1) =~= s.skip(i + 1));
    let tail = replaced(s.skip(i + 1), needle, with);
    if needle.len() == 0 {
        assert(rest =~= seq![rest[0]] + s.skip(i + 1));
    }
    assert(done + (seq![rest[0]] + tail) =~= done.push(rest[0]) + tail);
}

/// Byte-level find and replace of every occurrence of `needle`.
pub fn replace_bytes(haystack: &[u8], needle: &[u8], with: &[u8]) -> (r: Vec<u8>)
    ensures
        r@ == replaced(haystack@, needle@, with@),
{
    let mut out: Vec<u8> = Vec::new();
    let mut i: usize = 0;
    assert(haystack@.skip(0) =~= haystack@);
    assert(out@ + replaced(haystack@, needle@, with@) =~= replaced(haystack@, needle@, with@));
    while i < haystack.len()
        invariant
            i <= haystack@.len(),
            out@ + replaced(haystack@.skip(i as int), needle@, with@) == replaced(
                haystack@,
                needle@,
                with@,
            ),
        decreases haystack@.len() - i,
    {
        if needle.len() > 0 && occurs_at_bytes(haystack, needle, i) {
            proof {
                lemma_replace_hit(out@, haystack@, needle@, with@, i as int);
            }
            extend(&mut out, with);
            i = i + needle.len();
        } else {
            proof {
                lemma_replace_miss(out@, haystack@, needle@, with@, i as int);
            }
            out.push(haystack[i]);
            i = i + 1;
        }
    }
    assert(haystack@.skip(i as int) =~= Seq::<u8>::empty());
    assert(out@ + Seq::<u8>::empty() =~= out@);
    out
}

/// Does `needle` occur in `s` at position `at`?
fn occurs_at_chars(s: &Vec<char>, needle: &Vec<char>, at: usize) -> (r: bool)
    requires
        at <= s@.len(),
    ensures
        r == occurs_at(s@, needle@, at as int),
{
    if s.len() - at < needle.len() {
        return false;
    }
    let mut i: usize = 0;
    while i < needle.len()
        invariant
            i <= needle@.len(),
            at + needle@.len() <= s.len(),
            forall|j: int| 0 <= j < i ==> s@[at + j] == needle@[j],
        decreases needle@.len() - i,
    {
        if s[at + i] != needle[i] {
            assert(s@[at + i] != needle@[i as int]);
            return false;
        }
        i = i + 1;
    }
    true
}

/// Does `needle` occur in `s`?
pub fn contains_text(s: &str, needle: &str) -> (r: bool)
    ensures
        r == occurs(s@, needle@),
{
    let chars: Vec<char> = chars_of(s);
    let wanted: Vec<char> = chars_of(needle);
    let mut i: usize = 0;
    while i < chars.len()
        invariant
            chars@ == s@,
            wanted@ == needle@,
            i <= chars@.len(),
            forall|at: int| 0 <= at < i ==> !occurs_at(s@, needle@, at),
        decreases chars@.len() - i,
    {
        if occurs_at_chars(&chars, &wanted, i) {
            return true;
        }
        i = i + 1;
    }
    occurs_at_chars(&chars, &wanted, i)
}

/// Text-level find and replace of every occurrence of `needle`.
pub fn replace_text(s: &str, needle: &str, with: &str) -> (r: String)
    ensures
        r@ == replaced(s@, needle@, with@),
{
    let chars: Vec<char> = chars_of(s);
    let wanted: Vec<char> = chars_of(needle);
    let mut out: String = String::new();
    let mut i: usize = 0;
    assert(s@.skip(0) =~= s@);
    assert(out@ + replaced(s@, needle@, with@) =~= replaced(s@, needle@, with@));
    while i < chars.len()
        invariant
            chars@ == s@,
            wanted@ == needle@,
            i <= chars@.len(),
            out@ + replaced(s@.skip(i as int), needle@, with@) == replaced(s@, needle@, with@),
        decreases chars@.len() - i,
    {
        if wanted.len() > 0 && occurs_at_chars(&chars, &wanted, i) {
            proof {
                lemma_replace_hit(out@, s@, needle@, with@, i as int);
            }
            out.append(with);
            i = i + wanted.len();
        } else {
            proof {
                lemma_replace_miss(out@, s@, needle@, with@, i as int);
            }
            out.push(chars[i]);
            i = i + 1;
        }
    }
    assert(s@.skip(i as int) =~= Seq::<char>::empty());
    assert(out@ + Seq::<char>::empty() =~= out@);
    out
}

/// The parts of `s` between the occurrences of `sep`.
pub fn split_text(s: &str, sep: char) -> (r: Vec<String>)
    ensures
        texts(r@) == split_on(s@, sep),
{
    let chars: Vec<char> = chars_of(s);
    let mut out: Vec<String> = Vec::new();
    let mut part: String = String::new();
    let mut i: usize = 0;
    assert(s@.take(0) =~= Seq::<char>::empty());
    assert(texts(out@).push(part@) =~= seq![Seq::<char>::empty()]);
    while i < chars.len()
        invariant
            chars@ == s@,
            i <= chars@.len(),
            texts(out@).push(part@) == split_on(s@.take(i as int), sep),
        decreases chars@.len() - i,
    {
        let c: char = chars[i];
        let ghost before = split_on(s@.take(i as int), sep);
        proof {
            let next = s@.take(i + 1);
            assert(next.drop_last() =~= s@.take(i as int));
            assert(next.last() == c);
            assert(before.drop_last() =~= texts(out@));
            assert(before.last() == part@);
        }
        if c == sep {
            let ghost old_out = out@;
            let ghost old_part = part@;
            out.push(part);
            part = String::new();
            proof {
                assert(texts(out@) =~= texts(old_out).push(old_part));
            }
        } else {
            part.push(c);
        }
        i = i + 1;
    }
    assert(s@.take(i as int) =~= s@);
    let ghost old_out = out@;
    let ghost old_part = part@;
    out.push(part);
    assert(texts(out@) =~= texts(old_out).push(old_part));
    out
}

/// A copy of the strings.
pub(crate) fn copy_texts(items: &Vec<String>) -> (r: Vec<String>)
    ensures
        texts(r@) == texts(items@),
{
    let mut out: Vec<String> = Vec::new();
    let mut i: usize = 0;
    while i < items.len()
        invariant
            i <= items@.len(),
            out@.len() == i,
            forall|j: int| 0 <= j < i ==> (#[trigger] out@[j])@ == items@[j]@,
        decreases items@.len() - i,
    {
        out.push(items[i].clone());
        i = i + 1;
    }
    assert(texts(out@) =~= texts(items@));
    out
}

/// A copy of the bytes.
pub(crate) fn copy_bytes(bytes: &[u8]) -> (r: Vec<u8>)
    ensures
        r@ == bytes@,
{
    let mut out: Vec<u8> = Vec::new();
    extend(&mut out, bytes);
    assert(out@ =~= bytes@);
    out
}

/// Append `tail` to `out`.
pub(crate) fn extend(out: &mut Vec<u8>, tail: &[u8])
    ensures
        final(out)@ == old(out)@ + tail@,
{
    let mut i: usize = 0;
    assert(tail@.take(0) =~= Seq::<u8>::empty());
    assert(out@ =~= old(out)@ + tail@.take(0));
    while i < tail.len()
        invariant
            i <= tail@.len(),
            out@ == old(out)@ + tail@.take(i as int),
        decreases tail@.len() - i,
    {
        out.push(tail[i]);
        i = i + 1;
        assert(out@ =~= old(out)@ + tail@.take(i as int));
    }
    assert(tail@.take(i as int) =~= tail@);
}

} // verus!
