//! What a comparison sees of the locks: for each of them the redacted key, the redacted primary, the
//! kind, and whether it expires.

use vstd::prelude::*;
use vstd::string::*;

use crate::comparison::{
    lemma_default_facts, lemma_map_multiset, lemma_sorted_and_joined,
    the_defaults_are_always_shown,
};
use crate::observation::{LockObs, Observation};
use crate::order::{lemma_text_order_total, text_order};
use crate::project::{
    default_facts, facts, known_paths, lock_text, lock_texts, redacted, ttl_bucket,
};
use crate::text::{
    ends_before, joined, lemma_ends_before, lemma_first_separator, occurs, occurs_at,
};

verus! {

/// Times to live are told apart exactly by whether there is one.
pub proof fn only_whether_a_lock_expires_is_seen(a: u64, b: u64)
    ensures
        ttl_bucket(a) == ttl_bucket(b) <==> (a > 0 <==> b > 0),
{
    lemma_buckets(a);
    lemma_buckets(b);
}

/// What is seen of a lock: the redacted key, the redacted primary, the kind, and whether it expires.
type Seen = (Seq<char>, Seq<char>, Seq<char>, bool);

/// What is seen of a lock.
spec fn seen(l: LockObs, p: Seq<char>) -> Seen {
    (redacted(l.key.raw(), p), redacted(l.primary.raw(), p), l.kind@, l.ttl_ms > 0)
}

/// How it is spelled whether a lock expires.
spec fn expiry(expires: bool) -> Seq<char> {
    if expires {
        "positive"@
    } else {
        "zero"@
    }
}

/// What is seen of a lock, written out.
spec fn written(s: Seen) -> Seq<char> {
    "key="@ + (s.0 + " primary="@ + (s.1 + " kind="@ + (s.2 + " ttl="@ + expiry(s.3))))
}

/// The parts of the text can be told apart.
spec fn readable(s: Seen) -> bool {
    !occurs(s.0, " primary="@) && !occurs(s.1, " kind="@)
}

/// What a readable text says.
spec fn read(text: Seq<char>) -> Seen {
    choose|s: Seen| #[trigger] written(s) == text && readable(s)
}

proof fn lemma_buckets(ttl_ms: u64)
    ensures
        ttl_bucket(ttl_ms) == expiry(ttl_ms > 0),
        expiry(true).len() == 8 && expiry(true)[7] == 'e',
        expiry(false).len() == 4 && expiry(false)[3] == 'o',
{
    reveal_strlit("positive");
    reveal_strlit("zero");
    assert("positive"@.len() == 8 && "zero"@.len() == 4);
}

proof fn lemma_written(l: LockObs, p: Seq<char>)
    ensures
        lock_text(l, p) == written(seen(l, p)),
        lock_text(l, p).len() > 0,
        lock_text(l, p).last() == expiry(l.ttl_ms > 0).last(),
{
    lemma_buckets(l.ttl_ms);
    let s = seen(l, p);
    let t = lock_text(l, p);
    assert(t =~= written(s));
    assert(t[t.len() - 1] == ttl_bucket(l.ttl_ms).last());
}

/// The separators begin with a blank, and have no other.
proof fn lemma_separators()
    ensures
        forall|i: int| 1 <= i < " primary="@.len() ==> #[trigger] " primary="@[i] != " primary="@[0],
        forall|i: int| 1 <= i < " kind="@.len() ==> #[trigger] " kind="@[i] != " kind="@[0],
        " primary="@.len() > 0,
        " kind="@.len() > 0,
        " ttl="@.len() == 5,
        "key="@.len() == 4,
        " | "@.len() == 3 && " | "@[0] == ' ' && " | "@[1] == '|' && " | "@[2] == ' ',
{
    reveal_strlit(" primary=");
    reveal_strlit(" kind=");
    reveal_strlit(" ttl=");
    reveal_strlit("key=");
    reveal_strlit(" | ");
    assert(" primary="@[0] == ' ');
    assert(" kind="@[0] == ' ');
    assert(" ttl="@.len() == 5);
    assert("key="@.len() == 4);
    assert(" | "@.len() == 3);
}

/// Behind the same beginning stands the same.
proof fn lemma_cancel_left(head: Seq<char>, a: Seq<char>, b: Seq<char>)
    requires
        head + a == head + b,
    ensures
        a == b,
{
    assert((head + a).skip(head.len() as int) =~= a);
    assert((head + b).skip(head.len() as int) =~= b);
}

/// Before the same ending stands the same.
proof fn lemma_cancel_right(a: Seq<char>, b: Seq<char>, tail: Seq<char>)
    requires
        a + tail == b + tail,
    ensures
        a == b,
{
    assert((a + tail).len() == a.len() + tail.len());
    assert((b + tail).len() == b.len() + tail.len());
    assert((a + tail).take(a.len() as int) =~= a);
    assert((b + tail).take(b.len() as int) =~= b);
}

proof fn lemma_written_apart(a: Seen, b: Seen)
    requires
        readable(a),
        readable(b),
        written(a) == written(b),
    ensures
        a == b,
{
    lemma_separators();
    lemma_buckets(0);
    let ka = a.2 + " ttl="@ + expiry(a.3);
    let kb = b.2 + " ttl="@ + expiry(b.3);
    let pa = a.1 + " kind="@ + ka;
    let pb = b.1 + " kind="@ + kb;
    lemma_cancel_left("key="@, a.0 + " primary="@ + pa, b.0 + " primary="@ + pb);
    lemma_ends_before(a.0, " primary="@);
    lemma_ends_before(b.0, " primary="@);
    lemma_first_separator(a.0, pa, b.0, pb, " primary="@);
    lemma_ends_before(a.1, " kind="@);
    lemma_ends_before(b.1, " kind="@);
    lemma_first_separator(a.1, ka, b.1, kb, " kind="@);
    assert(ka[ka.len() - 1] == expiry(a.3).last());
    assert(kb[kb.len() - 1] == expiry(b.3).last());
    assert(a.3 == b.3);
    lemma_cancel_right(a.2 + " ttl="@, b.2 + " ttl="@, expiry(a.3));
    lemma_cancel_right(a.2, b.2, " ttl="@);
}

/// Where no bar between blanks occurs in the text of a lock, none begins there either.
proof fn lemma_lock_text_ends(l: LockObs, p: Seq<char>)
    requires
        !occurs(lock_text(l, p), " | "@),
    ensures
        ends_before(lock_text(l, p), " | "@),
{
    lemma_separators();
    lemma_written(l, p);
    lemma_buckets(0);
    let item = lock_text(l, p);
    let sep = " | "@;
    let whole = item + sep;
    let n = item.len();
    assert forall|k: int| 0 <= k < item.len() implies !#[trigger] occurs_at(whole, sep, k) by {
        if occurs_at(whole, sep, k) {
            if k + 3 <= n {
                assert forall|i: int| 0 <= i < sep.len() implies item[k + i] == sep[i] by {
                    assert(whole[k + i] == sep[i]);
                }
                assert(occurs_at(item, sep, k));
            } else if k == n - 1 {
                assert(whole[k + 0] == sep[0]);
                assert(item[n - 1] == ' ');
            } else {
                assert(whole[k + 1] == sep[1]);
                assert(item[n - 1] == '|');
            }
        }
    }
}

proof fn lemma_locks_joinable(locks: Seq<LockObs>, p: Seq<char>)
    requires
        forall|i: int|
            0 <= i < locks.len() ==> !occurs(lock_text(#[trigger] locks[i], p), " | "@),
    ensures
        forall|i: int|
            0 <= i < lock_texts(locks, p).len() ==> (#[trigger] lock_texts(locks, p)[i]).len() > 0
                && ends_before(lock_texts(locks, p)[i], " | "@),
{
    assert forall|i: int| 0 <= i < lock_texts(locks, p).len() implies (#[trigger] lock_texts(
        locks,
        p,
    )[i]).len() > 0 && ends_before(lock_texts(locks, p)[i], " | "@) by {
        assert(!occurs(lock_text(locks[i], p), " | "@));
        lemma_lock_text_ends(locks[i], p);
        lemma_written(locks[i], p);
    }
}

/// The locks as they are seen are read back from their texts.
proof fn lemma_read_back(locks: Seq<LockObs>, p: Seq<char>)
    requires
        forall|i: int|
            0 <= i < locks.len() ==> !occurs(
                redacted((#[trigger] locks[i]).key.raw(), p),
                " primary="@,
            ) && !occurs(redacted(locks[i].primary.raw(), p), " kind="@),
    ensures
        lock_texts(locks, p).map_values(|t: Seq<char>| read(t)) == locks.map_values(
            |l: LockObs| seen(l, p),
        ),
{
    let x = lock_texts(locks, p).map_values(|t: Seq<char>| read(t));
    let y = locks.map_values(|l: LockObs| seen(l, p));
    assert forall|i: int| 0 <= i < locks.len() implies x[i] == y[i] by {
        let s = seen(locks[i], p);
        let t = lock_text(locks[i], p);
        lemma_written(locks[i], p);
        assert(readable(s));
        assert(written(s) == t && readable(s));
        lemma_written_apart(read(t), s);
    }
    assert(x =~= y);
}

/// Locks are seen whole: observations with the same facts have locks that agree, in any order, on
/// the redacted key, the redacted primary, the kind, and whether they expire. The texts of keys and
/// primaries are such that the parts of a lock's text, and the locks, can be told apart.
pub proof fn locks_are_seen_whole(
    a: Observation,
    p: Seq<char>,
    b: Observation,
    q: Seq<char>,
    also: Seq<Seq<char>>,
)
    requires
        known_paths(also),
        facts(a, p, also) == facts(b, q, also),
        forall|i: int|
            0 <= i < a.locks@.len() ==> {
                &&& !occurs(redacted((#[trigger] a.locks@[i]).key.raw(), p), " primary="@)
                &&& !occurs(redacted(a.locks@[i].primary.raw(), p), " kind="@)
                &&& !occurs(lock_text(a.locks@[i], p), " | "@)
            },
        forall|i: int|
            0 <= i < b.locks@.len() ==> {
                &&& !occurs(redacted((#[trigger] b.locks@[i]).key.raw(), q), " primary="@)
                &&& !occurs(redacted(b.locks@[i].primary.raw(), q), " kind="@)
                &&& !occurs(lock_text(b.locks@[i], q), " | "@)
            },
    ensures
        a.locks@.map_values(
            |l: LockObs|
                (redacted(l.key.raw(), p), redacted(l.primary.raw(), p), l.kind@, l.ttl_ms > 0),
        ).to_multiset() == b.locks@.map_values(
            |l: LockObs|
                (redacted(l.key.raw(), q), redacted(l.primary.raw(), q), l.kind@, l.ttl_ms > 0),
        ).to_multiset(),
{
    the_defaults_are_always_shown(a, p, b, q, also);
    lemma_default_facts(a, p);
    lemma_default_facts(b, q);
    let f = default_facts(a, p);
    let g = default_facts(b, q);
    assert(f["locks"@] == g["locks"@]);
    let x = lock_texts(a.locks@, p);
    let y = lock_texts(b.locks@, q);
    lemma_separators();
    lemma_locks_joinable(a.locks@, p);
    lemma_locks_joinable(b.locks@, q);
    lemma_sorted_and_joined(x, y, " | "@);
    lemma_map_multiset(x, y, |t: Seq<char>| read(t));
    lemma_read_back(a.locks@, p);
    lemma_read_back(b.locks@, q);
    assert(a.locks@.map_values(|l: LockObs| seen(l, p)) =~= a.locks@.map_values(
        |l: LockObs|
            (redacted(l.key.raw(), p), redacted(l.primary.raw(), p), l.kind@, l.ttl_ms > 0),
    ));
    assert(b.locks@.map_values(|l: LockObs| seen(l, q)) =~= b.locks@.map_values(
        |l: LockObs|
            (redacted(l.key.raw(), q), redacted(l.primary.raw(), q), l.kind@, l.ttl_ms > 0),
    ));
}

/// The locks of an observation with one lock are shown as that lock.
proof fn lemma_one_lock(obs: Observation, p: Seq<char>)
    requires
        obs.locks@.len() == 1,
    ensures
        default_facts(obs, p).contains_key("locks"@),
        default_facts(obs, p)["locks"@] == lock_text(obs.locks@[0], p),
{
    lemma_default_facts(obs, p);
    lemma_text_order_total();
    let x = lock_texts(obs.locks@, p);
    x.lemma_sort_by_ensures(text_order());
    let s = x.sort_by(text_order());
    vstd::seq_lib::to_multiset_len(x);
    vstd::seq_lib::to_multiset_len(s);
    assert(s.len() == 1);
    vstd::seq_lib::to_multiset_contains(x, s[0]);
    vstd::seq_lib::to_multiset_contains(s, s[0]);
    assert(x.contains(s[0]));
    assert(joined(s, " | "@) == s[0]);
}

/// One lock is seen whole, whatever its texts: of observations with the same facts and one lock
/// each, both locks expire or neither does, and locks that agree on two of the redacted key, the
/// redacted primary and the kind agree on the third.
pub proof fn one_lock_is_seen_whole(
    a: Observation,
    p: Seq<char>,
    b: Observation,
    q: Seq<char>,
    also: Seq<Seq<char>>,
)
    requires
        known_paths(also),
        facts(a, p, also) == facts(b, q, also),
        a.locks@.len() == 1,
        b.locks@.len() == 1,
    ensures
        ({
            let l = a.locks@[0];
            let m = b.locks@[0];
            let same_key = redacted(l.key.raw(), p) == redacted(m.key.raw(), q);
            let same_primary = redacted(l.primary.raw(), p) == redacted(m.primary.raw(), q);
            let same_kind = l.kind@ == m.kind@;
            &&& l.ttl_ms > 0 <==> m.ttl_ms > 0
            &&& same_key && same_primary ==> same_kind
            &&& same_key && same_kind ==> same_primary
            &&& same_primary && same_kind ==> same_key
        }),
{
    the_defaults_are_always_shown(a, p, b, q, also);
    lemma_one_lock(a, p);
    lemma_one_lock(b, q);
    let l = a.locks@[0];
    let m = b.locks@[0];
    assert(default_facts(a, p)["locks"@] == default_facts(b, q)["locks"@]);
    lemma_written(l, p);
    lemma_written(m, q);
    lemma_buckets(0);
    let s = seen(l, p);
    let t = seen(m, q);
    assert(s.3 == t.3);
    let e = expiry(s.3);
    let kl = s.2 + " ttl="@ + e;
    let km = t.2 + " ttl="@ + e;
    let pl = s.1 + " kind="@ + kl;
    let pm = t.1 + " kind="@ + km;
    lemma_cancel_left("key="@, s.0 + " primary="@ + pl, t.0 + " primary="@ + pm);
    if s.0 == t.0 {
        lemma_cancel_left(s.0 + " primary="@, pl, pm);
        if s.1 == t.1 {
            lemma_cancel_left(s.1 + " kind="@, kl, km);
            lemma_cancel_right(s.2 + " ttl="@, t.2 + " ttl="@, e);
            lemma_cancel_right(s.2, t.2, " ttl="@);
        }
        if s.2 == t.2 {
            lemma_cancel_right(s.1 + " kind="@, t.1 + " kind="@, kl);
            lemma_cancel_right(s.1, t.1, " kind="@);
        }
    }
    if s.1 == t.1 && s.2 == t.2 {
        lemma_cancel_right(s.0 + " primary="@, t.0 + " primary="@, pl);
        lemma_cancel_right(s.0, t.0, " primary="@);
    }
}

/// Observations of one lock each that differ in nothing but the kind of the lock have different
/// facts, and the difference is at the locks.
pub proof fn the_kind_of_a_lock_is_seen(
    a: Observation,
    b: Observation,
    p: Seq<char>,
    also: Seq<Seq<char>>,
)
    requires
        known_paths(also),
        a.locks@.len() == 1,
        b.locks@.len() == 1,
        a.locks@[0].key.raw() == b.locks@[0].key.raw(),
        a.locks@[0].primary.raw() == b.locks@[0].primary.raw(),
        a.locks@[0].ttl_ms == b.locks@[0].ttl_ms,
        a.locks@[0].kind@ != b.locks@[0].kind@,
    ensures
        facts(a, p, also) != facts(b, p, also),
        default_facts(a, p)["locks"@] != default_facts(b, p)["locks"@],
{
    if facts(a, p, also) == facts(b, p, also) {
        one_lock_is_seen_whole(a, p, b, p, also);
    }
    lemma_one_lock(a, p);
    lemma_one_lock(b, p);
    let l = a.locks@[0];
    let m = b.locks@[0];
    lemma_written(l, p);
    lemma_written(m, p);
    let s = seen(l, p);
    let t = seen(m, p);
    if written(s) == written(t) {
        let e = expiry(s.3);
        let kl = s.2 + " ttl="@ + e;
        let km = t.2 + " ttl="@ + e;
        lemma_cancel_left(
            "key="@,
            s.0 + " primary="@ + (s.1 + " kind="@ + kl),
            s.0 + " primary="@ + (s.1 + " kind="@ + km),
        );
        lemma_cancel_left(s.0 + " primary="@, s.1 + " kind="@ + kl, s.1 + " kind="@ + km);
        lemma_cancel_left(s.1 + " kind="@, kl, km);
        lemma_cancel_right(s.2 + " ttl="@, t.2 + " ttl="@, e);
        lemma_cancel_right(s.2, t.2, " ttl="@);
    }
}

} // verus!
