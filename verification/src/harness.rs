//! What every suite needs of a cluster: where it is, which keys are one's own, and bytes to store.

use vstd::prelude::*;
use vstd::string::*;
use vstd::utf8::*;

use crate::dispatch::LockInfo;
use crate::isolation::lemma_utf8_concat;
use crate::observation::opt_text;
use crate::order::{
    bytes_le, bytes_lt, bytes_same, lemma_bytes_lt_asymmetric, lemma_utf8_injective, texts,
    the_next_byte_string,
};
use crate::text::{
    copy_bytes, decimal, decimal_text, decimals_tell_numbers_apart, ends_before, extend, joined,
    lemma_digits, lemma_ends_before, lemma_first_separator, occurs, occurs_at, split_on, split_text,
    splitting_loses_nothing, starts_with,
};

verus! {

/// A point in time: `std::time::SystemTime`.
#[verifier::external_type_specification]
#[verifier::external_body]
pub struct ExSystemTime(std::time::SystemTime);

/// `SystemTime::now` reads the clock. Nothing is claimed of what it reads.
pub assume_specification[ std::time::SystemTime::now ]() -> (t: std::time::SystemTime)
;

/// `Duration::as_nanos` is the length of a span in nanoseconds. Nothing is claimed of it: the span
/// comes from the clock, and what is inside one is not seen here.
pub assume_specification[ std::time::Duration::as_nanos ](d: &std::time::Duration) -> (n: u128)
;

/// `SystemTime::duration_since` with the epoch: the span from the epoch, or nothing where the time
/// is before it. Nothing is claimed of which.
#[verifier::external_body]
fn since_epoch(t: std::time::SystemTime) -> (d: Option<std::time::Duration>) {
    t.duration_since(std::time::UNIX_EPOCH).ok()
}

/// The cluster under test, as comma-separated addresses, or a local one where none is named.
pub open spec fn addresses(named: Option<Seq<char>>) -> Seq<Seq<char>> {
    split_on(
        match named {
            Some(list) => list,
            None => "127.0.0.1:2379"@,
        },
        ',',
    )
}

/// The cluster under test.
pub fn pd_addrs(named: Option<String>) -> (r: Vec<String>)
    ensures
        texts(r@) == addresses(opt_text(named)),
{
    match named {
        Some(list) => split_text(list.as_str(), ','),
        None => split_text("127.0.0.1:2379", ','),
    }
}

/// `<prefix><suffix>` as a key.
pub fn key(prefix: &[u8], suffix: &str) -> (r: Vec<u8>)
    ensures
        r@ == prefix@ + encode_utf8(suffix@),
{
    let mut key: Vec<u8> = Vec::new();
    extend(&mut key, prefix);
    extend(&mut key, suffix.as_bytes());
    assert(key@ =~= prefix@ + encode_utf8(suffix@));
    key
}

/// The key prefix of a test at a moment.
pub open spec fn prefix_text(test: Seq<char>, nanos: nat) -> Seq<char> {
    "gate/"@ + test + "/"@ + decimal(nanos) + "/"@
}

/// The key prefix of a test at a moment.
pub fn prefix_at(test: &str, nanos: u128) -> (r: Vec<u8>)
    ensures
        r@ == encode_utf8(prefix_text(test@, nanos as nat)),
{
    let mut text: String = "gate/".to_owned();
    text.append(test);
    text.append("/");
    text.append(decimal_text(nanos).as_str());
    text.append("/");
    text.as_str().as_bytes_vec()
}

/// The key prefix of a test, by a reading of the clock: the nanoseconds since 1970, or nothing where
/// the clock stands before that. There is a prefix exactly where there is a reading.
pub fn prefix_since(test: &str, nanos: Option<u128>) -> (r: Option<Vec<u8>>)
    ensures
        match nanos {
            Some(n) => r matches Some(prefix) && prefix@ == encode_utf8(
                prefix_text(test@, n as nat),
            ),
            None => r is None,
        },
{
    match nanos {
        Some(n) => Some(prefix_at(test, n)),
        None => None,
    }
}

/// A key prefix that is unique to the nanosecond, or nothing where the clock stands before 1970.
///
/// What becomes of each reading of the clock is said by [`prefix_since`]; that the clock can be read
/// is not promised.
///
/// Mandatory for whatever can leave a lock behind that the client cannot resolve: under a fixed
/// prefix such a lock would poison every later run.
pub fn unique_prefix(test: &str) -> (r: Option<Vec<u8>>)
    ensures
        r is Some ==> exists|nanos: u128|
            r->0@ == encode_utf8(#[trigger] prefix_text(test@, nanos as nat)),
{
    let nanos: Option<u128> = match since_epoch(std::time::SystemTime::now()) {
        Some(d) => Some(d.as_nanos()),
        None => None,
    };
    let prefix: Option<Vec<u8>> = prefix_since(test, nanos);
    proof {
        if let Some(n) = nanos {
            assert(prefix->0@ == encode_utf8(prefix_text(test@, n as nat)));
        }
    }
    prefix
}

/// A key that is unique to the nanosecond.
pub open spec fn repro_text(nanos: nat, suffix: Seq<char>) -> Seq<char> {
    "repro/"@ + decimal(nanos) + "/"@ + suffix
}

/// The key of a reproduction at a moment.
pub fn unique_at(nanos: u128, suffix: &str) -> (r: Vec<u8>)
    ensures
        r@ == encode_utf8(repro_text(nanos as nat, suffix@)),
{
    let mut text: String = "repro/".to_owned();
    text.append(decimal_text(nanos).as_str());
    text.append("/");
    text.append(suffix);
    text.as_str().as_bytes_vec()
}

/// The key of a reproduction, by a reading of the clock: the nanoseconds since 1970, or nothing where
/// the clock stands before that. There is a key exactly where there is a reading.
pub fn unique_since(nanos: Option<u128>, suffix: &str) -> (r: Option<Vec<u8>>)
    ensures
        match nanos {
            Some(n) => r matches Some(key) && key@ == encode_utf8(repro_text(n as nat, suffix@)),
            None => r is None,
        },
{
    match nanos {
        Some(n) => Some(unique_at(n, suffix)),
        None => None,
    }
}

/// A key that is unique to the nanosecond, or nothing where the clock stands before 1970.
///
/// What becomes of each reading of the clock is said by [`unique_since`]; that the clock can be read
/// is not promised.
pub fn unique(suffix: &str) -> (r: Option<Vec<u8>>)
    ensures
        r is Some ==> exists|nanos: u128|
            r->0@ == encode_utf8(#[trigger] repro_text(nanos as nat, suffix@)),
{
    let nanos: Option<u128> = match since_epoch(std::time::SystemTime::now()) {
        Some(d) => Some(d.as_nanos()),
        None => None,
    };
    let key: Option<Vec<u8>> = unique_since(nanos, suffix);
    proof {
        if let Some(n) = nanos {
            assert(key->0@ == encode_utf8(repro_text(n as nat, suffix@)));
        }
    }
    key
}

/// The range that holds one key and no other.
pub fn point_range(key: &[u8]) -> (r: (Vec<u8>, Vec<u8>))
    ensures
        r.0@ == key@,
        r.1@ == key@.push(0),
        forall|k: Seq<u8>| bytes_le(r.0@, k) && #[trigger] bytes_lt(k, r.1@) <==> k == key@,
{
    let mut upper: Vec<u8> = copy_bytes(key);
    upper.push(0);
    proof {
        assert forall|k: Seq<u8>|
            bytes_le(key@, k) && #[trigger] bytes_lt(k, upper@) <==> k == key@ by {
            the_next_byte_string(key@, k);
            the_next_byte_string(key@, upper@);
            if bytes_lt(k, upper@) {
                lemma_bytes_lt_asymmetric(k, upper@);
            }
        }
    }
    (copy_bytes(key), upper)
}

/// How many of the locks are on exactly this key.
pub open spec fn locks_held(locks: Seq<LockInfo>, key: Seq<u8>) -> nat
    decreases locks.len(),
{
    if locks.len() == 0 {
        0
    } else {
        locks_held(locks.drop_last(), key) + if locks.last().key@ == key {
            1nat
        } else {
            0nat
        }
    }
}

/// How many of the locks that a scan returned are on exactly this key.
pub fn locks_on(locks: &Vec<LockInfo>, key: &[u8]) -> (r: usize)
    ensures
        r == locks_held(locks@, key@),
{
    let mut n: usize = 0;
    let mut i: usize = 0;
    proof {
        assert(locks@.take(0) =~= Seq::<LockInfo>::empty());
    }
    while i < locks.len()
        invariant
            i <= locks@.len(),
            n <= i,
            n == locks_held(locks@.take(i as int), key@),
        decreases locks@.len() - i,
    {
        proof {
            let upto = locks@.take(i + 1);
            assert(upto.drop_last() =~= locks@.take(i as int));
            assert(upto.last() == locks@[i as int]);
        }
        if bytes_same(locks[i].key.as_slice(), key) {
            n = n + 1;
        }
        i = i + 1;
    }
    proof {
        assert(locks@.take(i as int) =~= locks@);
    }
    n
}

proof fn lemma_digit_bytes(n: nat)
    ensures
        is_ascii_chars(decimal(n)),
        decimal(n).len() > 0,
        forall|i: int| 0 <= i < decimal(n).len() ==> '0' <= #[trigger] decimal(n)[i] <= '9',
{
    lemma_digits(n);
}

/// The bytes of a decimal are its digits.
proof fn lemma_decimal_bytes(n: nat)
    ensures
        encode_utf8(decimal(n)).len() == decimal(n).len(),
        forall|i: int|
            0 <= i < decimal(n).len() ==> (#[trigger] encode_utf8(decimal(n))[i]) != 0x2f,
{
    lemma_digit_bytes(n);
    is_ascii_chars_encode_utf8(decimal(n));
    assert forall|i: int| 0 <= i < decimal(n).len() implies (#[trigger] encode_utf8(
        decimal(n),
    )[i]) != 0x2f by {
        let c: char = decimal(n)[i];
        assert('0' <= c <= '9');
        assert(c as u8 == encode_utf8(decimal(n))[i]);
    }
}

/// Of the prefixes of a test at two moments, neither begins the other, so that the keys under one
/// are not keys under the other.
pub proof fn two_moments_share_no_key(test: Seq<char>, n: nat, m: nat)
    requires
        n != m,
    ensures
        !starts_with(encode_utf8(prefix_text(test, n)), encode_utf8(prefix_text(test, m))),
{
    let base = "gate/"@ + test + "/"@;
    let b = encode_utf8(base);
    let dn = encode_utf8(decimal(n));
    let dm = encode_utf8(decimal(m));
    let slash = encode_utf8("/"@);
    let p = encode_utf8(prefix_text(test, n));
    let q = encode_utf8(prefix_text(test, m));
    reveal_strlit("/");
    assert("/"@ =~= seq!['/']);
    assert(is_ascii_chars("/"@));
    is_ascii_chars_encode_utf8("/"@);
    assert(slash.len() == 1);
    assert("/"@[0] as u8 == slash[0]);
    assert(slash[0] == 0x2f);
    lemma_utf8_concat(base + decimal(n), "/"@);
    lemma_utf8_concat(base, decimal(n));
    lemma_utf8_concat(base + decimal(m), "/"@);
    lemma_utf8_concat(base, decimal(m));
    lemma_decimal_bytes(n);
    lemma_decimal_bytes(m);
    assert(p == b + dn + slash);
    assert(q == b + dm + slash);
    if starts_with(p, q) {
        let at: int = (b.len() + dm.len()) as int;
        assert(p[0 + at] == q[at]);
        assert(q[at] == 0x2f);
        if dm.len() < dn.len() {
            assert(p[at] == dn[dm.len() as int]);
        }
        assert(dm.len() == dn.len());
        assert forall|i: int| 0 <= i < dn.len() implies dn[i] == dm[i] by {
            assert(p[0 + (b.len() + i)] == q[b.len() + i]);
        }
        assert(dn =~= dm);
        lemma_utf8_injective(decimal(n), decimal(m));
        decimals_tell_numbers_apart(n, m);
    }
}

/// Locks are counted one by one: those of two stretches are those of the first and those of the
/// second, and one lock counts exactly where it is on the key.
pub proof fn locks_are_counted_one_by_one(
    a: Seq<LockInfo>,
    b: Seq<LockInfo>,
    lock: LockInfo,
    key: Seq<u8>,
)
    ensures
        locks_held(a + b, key) == locks_held(a, key) + locks_held(b, key),
        locks_held(seq![lock], key) == if lock.key@ == key {
            1nat
        } else {
            0nat
        },
        locks_held(a, key) <= a.len(),
    decreases a.len() + b.len(),
{
    assert(seq![lock].drop_last() =~= Seq::<LockInfo>::empty());
    assert(locks_held(Seq::<LockInfo>::empty(), key) == 0);
    if a.len() > 0 {
        locks_are_counted_one_by_one(a.drop_last(), Seq::empty(), lock, key);
    }
    if b.len() == 0 {
        assert(a + b =~= a);
    } else {
        let init = b.drop_last();
        locks_are_counted_one_by_one(a, init, lock, key);
        assert((a + b).drop_last() =~= a + init);
        assert((a + b).last() == b.last());
    }
}

/// The addresses are what stands between the commas, and without a list they are the local ones.
pub proof fn the_addresses_are_the_list(list: Seq<char>)
    ensures
        addresses(Some(list)).len() > 0,
        joined(addresses(Some(list)), seq![',']) == list,
        forall|i: int|
            0 <= i < addresses(Some(list)).len() ==> !(#[trigger] addresses(
                Some(list),
            )[i]).contains(','),
        addresses(None) == addresses(Some("127.0.0.1:2379"@)),
{
    splitting_loses_nothing(list, ',');
}

/// The key of a reproduction tells the moment and the suffix, and is no key of a test.
pub proof fn a_reproduction_key_tells_its_moment(
    n: nat,
    s: Seq<char>,
    m: nat,
    t: Seq<char>,
    test: Seq<char>,
)
    ensures
        repro_text(n, s) == repro_text(m, t) <==> n == m && s == t,
        !starts_with(repro_text(n, s), prefix_text(test, m)),
        starts_with(repro_text(n, s), "repro/"@),
        starts_with(prefix_text(test, m), "gate/"@ + test + "/"@),
{
    reveal_strlit("/");
    reveal_strlit("repro/");
    reveal_strlit("gate/");
    assert("/"@.len() == 1 && "/"@[0] == '/');
    assert("repro/"@[0] == 'r' && "gate/"@[0] == 'g');
    assert(repro_text(n, s)[0] == 'r');
    assert(prefix_text(test, m)[0] == 'g');
    if starts_with(repro_text(n, s), prefix_text(test, m)) {
        assert(repro_text(n, s)[0int + 0] == prefix_text(test, m)[0]);
    }
    if repro_text(n, s) == repro_text(m, t) {
        let a = decimal(n) + "/"@ + s;
        let b = decimal(m) + "/"@ + t;
        assert(repro_text(n, s) =~= "repro/"@ + a);
        assert(repro_text(m, t) =~= "repro/"@ + b);
        assert(("repro/"@ + a).skip("repro/"@.len() as int) =~= a);
        assert(("repro/"@ + b).skip("repro/"@.len() as int) =~= b);
        lemma_decimal_ends(n);
        lemma_decimal_ends(m);
        lemma_first_separator(decimal(n), s, decimal(m), t, "/"@);
        decimals_tell_numbers_apart(n, m);
    }
}

proof fn lemma_decimal_ends(n: nat)
    ensures
        ends_before(decimal(n), "/"@),
{
    reveal_strlit("/");
    assert("/"@.len() == 1 && "/"@[0] == '/');
    lemma_digits(n);
    if occurs(decimal(n), "/"@) {
        let k = choose|k: int| occurs_at(decimal(n), "/"@, k);
        assert(decimal(n)[k + 0] == "/"@[0]);
        assert('0' <= decimal(n)[k] <= '9');
    }
    lemma_ends_before(decimal(n), "/"@);
}

/// The generator never stalls: from any seed, its state is never zero. A seed of zero stands for one.
pub proof fn the_generator_never_stalls(seed: u64, n: nat)
    ensures
        state_after(seed, n) != 0,
        state_after(0, n) == state_after(1, n),
    decreases n,
{
    if n > 0 {
        the_generator_never_stalls(seed, (n - 1) as nat);
        let x = state_after(seed, (n - 1) as nat);
        let a = x ^ (x >> 12);
        let b = a ^ (a << 25);
        assert(x != 0 ==> x ^ (x >> 12) != 0) by (bit_vector);
        assert(a != 0 ==> a ^ (a << 25) != 0) by (bit_vector);
        assert(b != 0 ==> b ^ (b >> 27) != 0) by (bit_vector);
    }
}

/// One step of the generator's state.
pub open spec fn shuffled(x: u64) -> u64 {
    let a = x ^ (x >> 12);
    let b = a ^ (a << 25);
    b ^ (b >> 27)
}

/// The generator's state after `n` steps.
pub open spec fn state_after(seed: u64, n: nat) -> u64
    decreases n,
{
    if n == 0 {
        if seed == 0 {
            1
        } else {
            seed
        }
    } else {
        shuffled(state_after(seed, (n - 1) as nat))
    }
}

/// The `n`th word that the generator puts out.
pub open spec fn word_at(seed: u64, n: nat) -> u64 {
    state_after(seed, n + 1).wrapping_mul(0x2545_F491_4F6C_DD1D)
}

/// The `i`th byte that the generator puts out: the words, each from its lowest byte up.
pub open spec fn byte_at(seed: u64, i: int) -> u8 {
    ((word_at(seed, (i / 8) as nat) >> ((8 * (i % 8)) as u64)) & 0xff) as u8
}

/// Eight bytes are a word, the lowest of them first.
pub proof fn eight_bytes_are_a_word(seed: u64, k: int)
    requires
        0 <= k,
    ensures
        word_at(seed, k as nat) == byte_at(seed, 8 * k) + 0x100 * byte_at(seed, 8 * k + 1) + 0x1_0000
            * byte_at(seed, 8 * k + 2) + 0x100_0000 * byte_at(seed, 8 * k + 3) + 0x1_0000_0000
            * byte_at(seed, 8 * k + 4) + 0x100_0000_0000 * byte_at(seed, 8 * k + 5)
            + 0x1_0000_0000_0000 * byte_at(seed, 8 * k + 6) + 0x100_0000_0000_0000 * byte_at(
            seed,
            8 * k + 7,
        ),
{
    let w = word_at(seed, k as nat);
    assert forall|i: int| 0 <= i < 8 implies #[trigger] byte_at(seed, 8 * k + i) == ((w >> ((8 * i)
        as u64)) & 0xff) as u8 by {
        assert((8 * k + i) / 8 == k && (8 * k + i) % 8 == i);
    }
    lemma_byte(w, 0, byte_at(seed, 8 * k + 0));
    lemma_byte(w, 8, byte_at(seed, 8 * k + 1));
    lemma_byte(w, 16, byte_at(seed, 8 * k + 2));
    lemma_byte(w, 24, byte_at(seed, 8 * k + 3));
    lemma_byte(w, 32, byte_at(seed, 8 * k + 4));
    lemma_byte(w, 40, byte_at(seed, 8 * k + 5));
    lemma_byte(w, 48, byte_at(seed, 8 * k + 6));
    lemma_byte(w, 56, byte_at(seed, 8 * k + 7));
    assert(w == ((w >> 0u64) & 0xff) + 0x100 * ((w >> 8u64) & 0xff) + 0x1_0000 * ((w >> 16u64)
        & 0xff) + 0x100_0000 * ((w >> 24u64) & 0xff) + 0x1_0000_0000 * ((w >> 32u64) & 0xff)
        + 0x100_0000_0000 * ((w >> 40u64) & 0xff) + 0x1_0000_0000_0000 * ((w >> 48u64) & 0xff)
        + 0x100_0000_0000_0000 * ((w >> 56u64) & 0xff)) by (bit_vector);
}

proof fn lemma_byte(w: u64, shift: u64, byte: u8)
    requires
        byte == ((w >> shift) & 0xff) as u8,
    ensures
        byte == (w >> shift) & 0xff,
{
    let low = (w >> shift) & 0xff;
    let v = w >> shift;
    assert(v & 0xff < 0x100) by (bit_vector);
    assert(low < 0x100);
}

/// Bytes that are the same on every run: an xorshift generator from a seed.
pub fn deterministic_bytes(seed: u64, len: usize) -> (r: Vec<u8>)
    ensures
        r@ == Seq::new(len as nat, |i: int| byte_at(seed, i)),
{
    let mut state: u64 = if seed == 0 {
        1
    } else {
        seed
    };
    let mut word: u64 = 0;
    let mut out: Vec<u8> = Vec::new();
    let mut i: usize = 0;
    while i < len
        invariant
            i <= len,
            out@.len() == i,
            state == state_after(seed, ((i + 7) / 8) as nat),
            i % 8 != 0 ==> word == word_at(seed, (i / 8) as nat),
            forall|j: int| 0 <= j < i ==> out@[j] == byte_at(seed, j),
        decreases len - i,
    {
        if i % 8 == 0 {
            state = state ^ (state >> 12);
            state = state ^ (state << 25);
            state = state ^ (state >> 27);
            word = state.wrapping_mul(0x2545_F491_4F6C_DD1D);
        }
        let shift: u64 = 8 * ((i % 8) as u64);
        out.push(((word >> shift) & 0xff) as u8);
        i = i + 1;
    }
    assert(out@ =~= Seq::new(len as nat, |i: int| byte_at(seed, i)));
    out
}

} // verus!
