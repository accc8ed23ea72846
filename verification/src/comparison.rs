//! What a comparison of two runs sees, and what it does not see.

use vstd::prelude::*;
use vstd::string::*;
use vstd::utf8::*;

use crate::class::{a_tag_is_a_word, same_kind, tags_tell_classes_apart, ClassView};
use crate::json::{json_text, least_member, JsonView};
use crate::observation::{LockObs, Observation};
use crate::order::{lemma_bytes_lt_asymmetric, lemma_text_order_total, text_lt, text_order};
use crate::project::{
    a_missing_step_is_a_divergence, all_disagreements, default_facts, disagreement, facts, facts_at,
    in_order, known_path, known_paths, listed_before, lock_texts, message_type, opt_in_fact,
    part_tags, projected, redacted, shown, the_known_paths, with_opt_ins, DivergenceView,
};
use crate::text::{
    decimal, decimals_tell_numbers_apart, ends_before, joined, joining_loses_nothing, lemma_digits,
    lemma_ends_before, occurs, occurs_at,
};
use crate::trace::Step;

verus! {

/// The facts of a run: step id, path, value.
pub type Facts = Map<Seq<char>, Map<Seq<char>, Seq<char>>>;

proof fn lemma_text_irreflexive(a: Seq<char>)
    ensures
        !text_lt(a, a),
{
    if text_lt(a, a) {
        lemma_bytes_lt_asymmetric(encode_utf8(a), encode_utf8(a));
    }
}

proof fn lemma_listed_asymmetric(a: DivergenceView, b: DivergenceView)
    requires
        listed_before(a, b),
    ensures
        !listed_before(b, a),
        a != b,
{
    lemma_text_irreflexive(a.step);
    lemma_text_irreflexive(a.path);
    if text_lt(a.step, b.step) {
        lemma_bytes_lt_asymmetric(encode_utf8(a.step), encode_utf8(b.step));
    } else {
        lemma_bytes_lt_asymmetric(encode_utf8(a.path), encode_utf8(b.path));
    }
}

proof fn lemma_first_of_order(a: Seq<DivergenceView>, b: Seq<DivergenceView>)
    requires
        in_order(a),
        in_order(b),
        a.len() > 0,
        forall|x: DivergenceView| #[trigger] a.contains(x) <==> b.contains(x),
    ensures
        b.len() > 0,
        a[0] == b[0],
{
    assert(a.contains(a[0]));
    let i = choose|i: int| 0 <= i < b.len() && b[i] == a[0];
    assert(b.contains(b[0]));
    assert(a.contains(b[0]));
    let j = choose|j: int| 0 <= j < a.len() && a[j] == b[0];
    if i > 0 {
        assert(listed_before(b[0], b[i]));
        if j > 0 {
            assert(listed_before(a[0], a[j]));
            lemma_listed_asymmetric(a[0], b[0]);
        } else {
            lemma_listed_asymmetric(b[0], b[i]);
        }
    }
}

proof fn lemma_ordered_lists_equal(a: Seq<DivergenceView>, b: Seq<DivergenceView>)
    requires
        in_order(a),
        in_order(b),
        forall|x: DivergenceView| #[trigger] a.contains(x) <==> b.contains(x),
    ensures
        a == b,
    decreases a.len(),
{
    if a.len() == 0 {
        if b.len() > 0 {
            assert(b.contains(b[0]));
            assert(a.contains(b[0]));
        }
        assert(a =~= b);
    } else {
        lemma_first_of_order(a, b);
        let a1 = a.skip(1);
        let b1 = b.skip(1);
        assert forall|x: DivergenceView| #[trigger] a1.contains(x) <==> b1.contains(x) by {
            lemma_rest_contains(a, x);
            lemma_rest_contains(b, x);
            assert(a.contains(x) <==> b.contains(x));
        }
        lemma_ordered_lists_equal(a1, b1);
        assert(a =~= seq![a[0]] + a1);
        assert(b =~= seq![b[0]] + b1);
    }
}

proof fn lemma_rest_contains(a: Seq<DivergenceView>, x: DivergenceView)
    requires
        in_order(a),
        a.len() > 0,
    ensures
        a.skip(1).contains(x) <==> a.contains(x) && x != a[0],
{
    let rest = a.skip(1);
    if rest.contains(x) {
        let i = choose|i: int| 0 <= i < rest.len() && rest[i] == x;
        assert(a[i + 1] == x);
        assert(listed_before(a[0], a[i + 1]));
        lemma_listed_asymmetric(a[0], a[i + 1]);
    }
    if a.contains(x) && x != a[0] {
        let i = choose|i: int| 0 <= i < a.len() && a[i] == x;
        assert(rest[i - 1] == x);
    }
}

/// The list of divergences is a function of the two projections: nothing in it is an artifact of
/// the order in which something was visited.
pub proof fn the_diff_is_determined(
    oracle: Facts,
    subject: Facts,
    d: Seq<DivergenceView>,
    e: Seq<DivergenceView>,
)
    requires
        all_disagreements(oracle, subject, d),
        all_disagreements(oracle, subject, e),
    ensures
        d == e,
{
    lemma_ordered_lists_equal(d, e);
}

/// The divergence with the two runs in each other's place.
pub open spec fn turned(d: DivergenceView) -> DivergenceView {
    DivergenceView { step: d.step, path: d.path, oracle: d.subject, subject: d.oracle }
}

/// Which of the two runs is called the oracle decides only how a divergence is written.
pub proof fn turning_the_runs_turns_the_diff(oracle: Facts, subject: Facts, d: Seq<DivergenceView>)
    requires
        all_disagreements(oracle, subject, d),
    ensures
        all_disagreements(subject, oracle, d.map_values(|x: DivergenceView| turned(x))),
{
    let e = d.map_values(|x: DivergenceView| turned(x));
    assert forall|i: int, j: int| 0 <= i < j < e.len() implies listed_before(
        #[trigger] e[i],
        #[trigger] e[j],
    ) by {
        assert(listed_before(d[i], d[j]));
    }
    assert forall|x: DivergenceView| #[trigger] e.contains(x) <==> disagreement(
        subject,
        oracle,
        x,
    ) by {
        let y = turned(x);
        assert(turned(y) == x);
        assert(disagreement(subject, oracle, x) <==> disagreement(oracle, subject, y));
        assert(d.contains(y) <==> disagreement(oracle, subject, y));
        if e.contains(x) {
            let i = choose|i: int| 0 <= i < e.len() && e[i] == x;
            assert(d[i] == y);
        }
        if d.contains(y) {
            let i = choose|i: int| 0 <= i < d.len() && d[i] == y;
            assert(e[i] == x);
        }
    }
}

/// A run agrees with itself.
pub proof fn a_run_agrees_with_itself(run: Facts, d: Seq<DivergenceView>)
    requires
        all_disagreements(run, run, d),
    ensures
        d.len() == 0,
{
    if d.len() > 0 {
        assert(d.contains(d[0]));
        assert(disagreement(run, run, d[0]));
    }
}

/// The paths are pairwise different.
pub(crate) proof fn lemma_paths_differ()
    ensures
        "class"@ != "unsupported.detail"@,
        "class"@ != "class.parts"@,
        "class"@ != "value"@,
        "class"@ != "locks.count"@,
        "class"@ != "locks"@,
        "class"@ != "commit_ts"@,
        "class"@ != "proto.present"@,
        "class"@ != "proto.type"@,
        !known_path("class"@),
        !known_path("unsupported.detail"@),
        !known_path("class.parts"@),
        "unsupported.detail"@ != "class.parts"@,
        "unsupported.detail"@ != "value"@,
        "unsupported.detail"@ != "locks.count"@,
        "unsupported.detail"@ != "locks"@,
        "unsupported.detail"@ != "commit_ts"@,
        "unsupported.detail"@ != "proto.present"@,
        "unsupported.detail"@ != "proto.type"@,
        "class.parts"@ != "value"@,
        "class.parts"@ != "locks.count"@,
        "class.parts"@ != "locks"@,
        "class.parts"@ != "commit_ts"@,
        "class.parts"@ != "proto.present"@,
        "class.parts"@ != "proto.type"@,
        "value"@ != "locks.count"@,
        "value"@ != "locks"@,
        "value"@ != "commit_ts"@,
        "value"@ != "proto.present"@,
        "value"@ != "proto.type"@,
        !known_path("value"@),
        "locks.count"@ != "locks"@,
        "locks.count"@ != "commit_ts"@,
        "locks.count"@ != "proto.present"@,
        "locks.count"@ != "proto.type"@,
        !known_path("locks.count"@),
        "locks"@ != "commit_ts"@,
        "locks"@ != "proto.present"@,
        "locks"@ != "proto.type"@,
        !known_path("locks"@),
        "commit_ts"@ != "proto.present"@,
        "commit_ts"@ != "proto.type"@,
        !known_path("commit_ts"@),
        "proto.present"@ != "proto.type"@,
        !known_path("proto.present"@),
        !known_path("proto.type"@),
        "native.type"@ != "proto"@,
        "native.type"@ != "errors.count"@,
        "proto"@ != "errors.count"@,
        "true"@ != "false"@,
        "<ts>"@ != "<absent>"@,
        "<absent>"@[0] == '<',
{
    the_known_paths("class"@);
    the_known_paths("unsupported.detail"@);
    the_known_paths("class.parts"@);
    the_known_paths("value"@);
    the_known_paths("locks.count"@);
    the_known_paths("locks"@);
    the_known_paths("commit_ts"@);
    the_known_paths("proto.present"@);
    the_known_paths("proto.type"@);
    reveal_strlit("class");
    reveal_strlit("unsupported.detail");
    reveal_strlit("class.parts");
    reveal_strlit("value");
    reveal_strlit("locks.count");
    reveal_strlit("locks");
    reveal_strlit("commit_ts");
    reveal_strlit("proto.present");
    reveal_strlit("proto.type");
    reveal_strlit("native.type");
    reveal_strlit("proto");
    reveal_strlit("errors.count");
    reveal_strlit("true");
    reveal_strlit("false");
    reveal_strlit("<ts>");
    reveal_strlit("<absent>");
    assert("true"@.len() == 4);
    assert("false"@.len() == 5);
    assert("<ts>"@.len() == 4);
    assert("<absent>"@.len() == 8 && "<absent>"@[0] == '<');
    assert("class"@.len() == 5);
    assert("unsupported.detail"@.len() == 18);
    assert("class.parts"@.len() == 11);
    assert("value"@.len() == 5);
    assert("locks.count"@.len() == 11);
    assert("locks"@.len() == 5);
    assert("commit_ts"@.len() == 9);
    assert("proto.present"@.len() == 13);
    assert("proto.type"@.len() == 10);
    assert("native.type"@.len() == 11);
    assert("proto"@.len() == 5);
    assert("errors.count"@.len() == 12);
    assert("class"@[0] == 'c' && "value"@[0] == 'v' && "locks"@[0] == 'l' && "proto"@[0] == 'p');
    assert("class.parts"@[0] == 'c' && "locks.count"@[0] == 'l' && "native.type"@[0] == 'n');
}

/// The fact at a path of the defaults that is always there.
pub(crate) proof fn lemma_default_facts(obs: Observation, prefix: Seq<char>)
    ensures
        ({
            let f = default_facts(obs, prefix);
            &&& f.contains_key("class"@) && f["class"@] == obs.class@.tag()
            &&& f.contains_key("value"@) && f["value"@] == match obs.value {
                Some(v) => redacted(v.raw(), prefix),
                None => "<absent>"@,
            }
            &&& f.contains_key("locks.count"@) && f["locks.count"@] == decimal(obs.locks@.len())
            &&& f.contains_key("locks"@) && f["locks"@] == joined(
                lock_texts(obs.locks@, prefix).sort_by(text_order()),
                " | "@,
            )
            &&& f.contains_key("commit_ts"@) && f["commit_ts"@] == if obs.commit_ts is Some {
                "<ts>"@
            } else {
                "<absent>"@
            }
            &&& f.contains_key("proto.present"@) && f["proto.present"@] == if obs.proto is Some {
                "true"@
            } else {
                "false"@
            }
            &&& f.contains_key("proto.type"@) <==> obs.proto is Some
            &&& f.contains_key("unsupported.detail"@) <==> obs.class@ is Unsupported
            &&& f.contains_key("class.parts"@) <==> obs.class@ is Mixed
            &&& obs.proto is Some ==> f["proto.type"@] == message_type(obs.proto->0@)
            &&& obs.class@ is Unsupported ==> f["unsupported.detail"@]
                == obs.class@->Unsupported_detail
            &&& obs.class@ is Mixed ==> f["class.parts"@] == joined(
                part_tags(obs.class@->Mixed_parts).sort_by(text_order()),
                ","@,
            )
            &&& forall|path: Seq<char>| #[trigger]
                f.contains_key(path) ==> path == "class"@ || path == "unsupported.detail"@ || path
                    == "class.parts"@ || path == "value"@ || path == "locks.count"@ || path
                    == "locks"@ || path == "commit_ts"@ || path == "proto.present"@ || path
                    == "proto.type"@
        }),
{
    lemma_paths_differ();
}

/// Asking for more adds what is asked for, and changes nothing else.
pub(crate) proof fn lemma_opt_ins(
    f: Map<Seq<char>, Seq<char>>,
    obs: Observation,
    also: Seq<Seq<char>>,
    path: Seq<char>,
)
    ensures
        with_opt_ins(f, obs, also).contains_key(path) <==> f.contains_key(path) || also.contains(
            path,
        ),
        also.contains(path) ==> with_opt_ins(f, obs, also)[path] == opt_in_fact(obs, path),
        !also.contains(path) ==> with_opt_ins(f, obs, also)[path] == f[path],
    decreases also.len(),
{
    if also.len() > 0 {
        let init = also.drop_last();
        lemma_opt_ins(f, obs, init, path);
        if also.contains(path) && path != also.last() {
            let i = choose|i: int| 0 <= i < also.len() && also[i] == path;
            assert(init[i] == path);
        }
        if init.contains(path) {
            let i = choose|i: int| 0 <= i < init.len() && init[i] == path;
            assert(also[i] == path);
        }
        if path == also.last() {
            assert(also[also.len() - 1] == path);
        }
    }
}

pub(crate) proof fn lemma_not_opt_in(also: Seq<Seq<char>>, path: Seq<char>)
    requires
        known_paths(also),
        !known_path(path),
    ensures
        !also.contains(path),
{
    if also.contains(path) {
        let i = choose|i: int| 0 <= i < also.len() && also[i] == path;
        assert(known_path(also[i]));
    }
}

/// The defaults are shown whatever else is asked for: observations with the same facts have the
/// same facts of the defaults, and agree on everything that the comparison asks for.
pub proof fn the_defaults_are_always_shown(
    a: Observation,
    p: Seq<char>,
    b: Observation,
    q: Seq<char>,
    also: Seq<Seq<char>>,
)
    requires
        known_paths(also),
        facts(a, p, also) == facts(b, q, also),
    ensures
        default_facts(a, p) == default_facts(b, q),
        forall|path: Seq<char>| #[trigger]
            also.contains(path) ==> opt_in_fact(a, path) == opt_in_fact(b, path),
{
    lemma_paths_differ();
    lemma_default_facts(a, p);
    lemma_default_facts(b, q);
    let f = default_facts(a, p);
    let g = default_facts(b, q);
    assert forall|path: Seq<char>|
        #![trigger f.dom().contains(path)]
        #![trigger g.dom().contains(path)]
        f.dom().contains(path) == g.dom().contains(path) && (f.dom().contains(path) ==> f[path]
            == g[path]) by {
        if known_path(path) {
            assert(!f.contains_key(path) && !g.contains_key(path));
        } else {
            lemma_not_opt_in(also, path);
            lemma_opt_ins(f, a, also, path);
            lemma_opt_ins(g, b, also, path);
        }
    }
    assert(f =~= g);
    assert forall|path: Seq<char>| #[trigger] also.contains(path) implies opt_in_fact(a, path)
        == opt_in_fact(b, path) by {
        lemma_opt_ins(f, a, also, path);
        lemma_opt_ins(g, b, also, path);
    }
}

/// What a comparison looks at, it sees: observations with the same facts have classes of the same
/// kind, with the same detail of what is unsupported and the same kinds of parts in any order; the
/// same value once it is redacted; as many locks; and agree on whether there is a commit timestamp,
/// whether there is a message, and of which type it is. And they agree on everything that the
/// comparison asks for: on the type of the native error, on the printed message, and on how many
/// errors there were.
pub proof fn what_is_asked_is_seen(
    a: Observation,
    p: Seq<char>,
    b: Observation,
    q: Seq<char>,
    also: Seq<Seq<char>>,
)
    requires
        known_paths(also),
        facts(a, p, also) == facts(b, q, also),
    ensures
        same_kind(a.class@, b.class@),
        a.class@ is Unsupported && b.class@ is Unsupported ==> a.class@->Unsupported_detail
            == b.class@->Unsupported_detail,
        a.class@ is Mixed && b.class@ is Mixed ==> a.class@->Mixed_parts.map_values(
            |c: ClassView| c.tag(),
        ).to_multiset() == b.class@->Mixed_parts.map_values(
            |c: ClassView| c.tag(),
        ).to_multiset(),
        a.value is Some && b.value is Some ==> redacted(a.value->0.raw(), p) == redacted(
            b.value->0.raw(),
            q,
        ),
        a.value is Some && b.value is None ==> redacted(a.value->0.raw(), p) == "<absent>"@,
        a.value is None && b.value is Some ==> redacted(b.value->0.raw(), q) == "<absent>"@,
        a.locks@.len() == b.locks@.len(),
        a.commit_ts is Some <==> b.commit_ts is Some,
        a.proto is Some <==> b.proto is Some,
        a.proto is Some && b.proto is Some ==> message_type(a.proto->0@) == message_type(
            b.proto->0@,
        ),
        forall|path: Seq<char>| #[trigger]
            also.contains(path) ==> opt_in_fact(a, path) == opt_in_fact(b, path),
        also.contains("native.type"@) && a.native is Some && b.native is Some ==> a.native->0.kind@
            == b.native->0.kind@,
        also.contains("native.type"@) && a.native is Some && b.native is None ==> a.native->0.kind@
            == "<absent>"@,
        also.contains("native.type"@) && a.native is None && b.native is Some ==> b.native->0.kind@
            == "<absent>"@,
        also.contains("proto"@) && a.proto is Some && b.proto is Some ==> json_text(a.proto->0@)
            == json_text(b.proto->0@),
        also.contains("errors.count"@) ==> a.error_count == b.error_count,
{
    lemma_paths_differ();
    the_defaults_are_always_shown(a, p, b, q, also);
    lemma_default_facts(a, p);
    lemma_default_facts(b, q);
    let f = default_facts(a, p);
    let g = default_facts(b, q);
    assert(f["class"@] == g["class"@]);
    tags_tell_classes_apart(a.class@, b.class@);
    assert(f["value"@] == g["value"@]);
    assert(f["locks.count"@] == g["locks.count"@]);
    decimals_tell_numbers_apart(a.locks@.len(), b.locks@.len());
    assert(f["commit_ts"@] == g["commit_ts"@]);
    assert(f["proto.present"@] == g["proto.present"@]);
    assert(f["proto.type"@] == g["proto.type"@]);
    assert(f["unsupported.detail"@] == g["unsupported.detail"@]);
    if a.class@ is Mixed {
        assert(f["class.parts"@] == g["class.parts"@]);
        lemma_parts_seen(a.class@->Mixed_parts, b.class@->Mixed_parts);
    }
    if also.contains("native.type"@) {
        assert(opt_in_fact(a, "native.type"@) == opt_in_fact(b, "native.type"@));
    }
    if also.contains("proto"@) {
        assert(opt_in_fact(a, "proto"@) == opt_in_fact(b, "proto"@));
    }
    if also.contains("errors.count"@) {
        assert(opt_in_fact(a, "errors.count"@) == opt_in_fact(b, "errors.count"@));
        if let Some(n) = a.error_count {
            lemma_digits(n as nat);
            if let Some(m) = b.error_count {
                decimals_tell_numbers_apart(n as nat, m as nat);
            }
        }
        if let Some(m) = b.error_count {
            lemma_digits(m as nat);
        }
    }
}

/// What is sorted and joined to the same text is the same in some order, where the separator can be
/// told from the items.
pub(crate) proof fn lemma_sorted_and_joined(x: Seq<Seq<char>>, y: Seq<Seq<char>>, sep: Seq<char>)
    requires
        sep.len() > 0,
        forall|i: int| 0 <= i < x.len() ==> (#[trigger] x[i]).len() > 0 && ends_before(x[i], sep),
        forall|i: int| 0 <= i < y.len() ==> (#[trigger] y[i]).len() > 0 && ends_before(y[i], sep),
        joined(x.sort_by(text_order()), sep) == joined(y.sort_by(text_order()), sep),
    ensures
        x.to_multiset() == y.to_multiset(),
{
    lemma_text_order_total();
    lemma_sorted_items(x, sep);
    lemma_sorted_items(y, sep);
    joining_loses_nothing(x.sort_by(text_order()), y.sort_by(text_order()), sep);
}

proof fn lemma_sorted_items(x: Seq<Seq<char>>, sep: Seq<char>)
    requires
        forall|i: int| 0 <= i < x.len() ==> (#[trigger] x[i]).len() > 0 && ends_before(x[i], sep),
    ensures
        x.sort_by(text_order()).to_multiset() == x.to_multiset(),
        forall|i: int|
            0 <= i < x.sort_by(text_order()).len() ==> (#[trigger] x.sort_by(
                text_order(),
            )[i]).len() > 0 && ends_before(x.sort_by(text_order())[i], sep),
{
    lemma_text_order_total();
    x.lemma_sort_by_ensures(text_order());
    let s = x.sort_by(text_order());
    assert forall|i: int| 0 <= i < s.len() implies (#[trigger] s[i]).len() > 0 && ends_before(
        s[i],
        sep,
    ) by {
        vstd::seq_lib::to_multiset_contains(s, s[i]);
        vstd::seq_lib::to_multiset_contains(x, s[i]);
        let k = choose|k: int| 0 <= k < x.len() && x[k] == s[i];
        assert(x[k].len() > 0);
    }
}

proof fn lemma_parts_seen(v: Seq<ClassView>, w: Seq<ClassView>)
    requires
        joined(part_tags(v).sort_by(text_order()), ","@) == joined(
            part_tags(w).sort_by(text_order()),
            ","@,
        ),
    ensures
        v.map_values(|c: ClassView| c.tag()).to_multiset() == w.map_values(
            |c: ClassView| c.tag(),
        ).to_multiset(),
{
    lemma_tags_joinable(v);
    lemma_tags_joinable(w);
    assert(part_tags(v) =~= v.map_values(|c: ClassView| c.tag()));
    assert(part_tags(w) =~= w.map_values(|c: ClassView| c.tag()));
    reveal_strlit(",");
    assert(","@.len() == 1);
    lemma_sorted_and_joined(part_tags(v), part_tags(w), ","@);
}

proof fn lemma_tags_joinable(v: Seq<ClassView>)
    ensures
        forall|i: int|
            0 <= i < part_tags(v).len() ==> (#[trigger] part_tags(v)[i]).len() > 0 && ends_before(
                part_tags(v)[i],
                ","@,
            ),
{
    reveal_strlit(",");
    assert(","@.len() == 1 && ","@[0] == ',');
    assert forall|i: int| 0 <= i < part_tags(v).len() implies (#[trigger] part_tags(v)[i]).len()
        > 0 && ends_before(part_tags(v)[i], ","@) by {
        let tag = part_tags(v)[i];
        a_tag_is_a_word(v[i]);
        if occurs(tag, ","@) {
            let k = choose|k: int| occurs_at(tag, ","@, k);
            assert(tag[k + 0] == ',');
            assert(tag.contains(','));
        }
        lemma_ends_before(tag, ","@);
    }
}

/// What is compared of a lock.
pub struct LockFact {
    pub key: Seq<u8>,
    pub primary: Seq<u8>,
    pub kind: Seq<char>,
    pub expires: bool,
}

/// What is compared of a lock.
pub open spec fn lock_fact(lock: LockObs) -> LockFact {
    LockFact {
        key: lock.key.raw(),
        primary: lock.primary.raw(),
        kind: lock.kind@,
        expires: lock.ttl_ms > 0,
    }
}

/// What is compared of each lock.
pub open spec fn lock_facts(locks: Seq<LockObs>) -> Seq<LockFact> {
    locks.map_values(|l: LockObs| lock_fact(l))
}

/// The classes are the same, or are mixed of the same parts in any order.
pub open spec fn same_parts(a: ClassView, b: ClassView) -> bool {
    ||| a == b
    ||| a is Mixed && b is Mixed && a->Mixed_parts.to_multiset() == b->Mixed_parts.to_multiset()
}

/// The observations give the same answer to a comparison that asks for nothing besides the
/// defaults: the same class with its parts in any order, the same value, the same locks in any
/// order, a commit timestamp or none in both, and a message of the same type or none in both.
pub open spec fn same_answer(a: Observation, b: Observation) -> bool {
    &&& same_parts(a.class@, b.class@)
    &&& match (a.value, b.value) {
        (Some(v), Some(w)) => v.raw() == w.raw(),
        (None, None) => true,
        _ => false,
    }
    &&& lock_facts(a.locks@).to_multiset() == lock_facts(b.locks@).to_multiset()
    &&& a.commit_ts is Some <==> b.commit_ts is Some
    &&& match (a.proto, b.proto) {
        (Some(v), Some(w)) => message_type(v@) == message_type(w@),
        (None, None) => true,
        _ => false,
    }
}

/// The text of what is compared of a lock.
spec fn fact_text(f: LockFact, prefix: Seq<char>) -> Seq<char> {
    "key="@ + redacted(f.key, prefix) + " primary="@ + redacted(f.primary, prefix) + " kind="@
        + f.kind + " ttl="@ + if f.expires {
        "positive"@
    } else {
        "zero"@
    }
}

pub(crate) proof fn lemma_map_multiset<A, B>(s: Seq<A>, t: Seq<A>, f: spec_fn(A) -> B)
    requires
        s.to_multiset() == t.to_multiset(),
    ensures
        s.map_values(f).to_multiset() == t.map_values(f).to_multiset(),
    decreases s.len(),
{
    broadcast use vstd::multiset::group_multiset_axioms;
    broadcast use vstd::seq_lib::group_to_multiset_ensures;

    vstd::seq_lib::to_multiset_len(s);
    vstd::seq_lib::to_multiset_len(t);
    if s.len() == 0 {
        assert(s.map_values(f) =~= t.map_values(f));
    } else {
        let x = s.last();
        let s1 = s.drop_last();
        assert(s1.push(x) =~= s);
        vstd::seq_lib::to_multiset_contains(s, x);
        vstd::seq_lib::to_multiset_contains(t, x);
        assert(s[s.len() - 1] == x);
        let i = choose|i: int| 0 <= i < t.len() && t[i] == x;
        let t1 = t.remove(i);
        assert(s1.to_multiset() =~= t1.to_multiset()) by {
            assert(s.to_multiset() =~= s1.to_multiset().insert(x));
            assert(t1.to_multiset() =~= t.to_multiset().remove(x));
        }
        lemma_map_multiset(s1, t1, f);
        assert(s.map_values(f) =~= s1.map_values(f).push(f(x)));
        assert(t.map_values(f).remove(i) =~= t1.map_values(f));
        let m = t.map_values(f);
        assert(m[i] == f(x));
        vstd::seq_lib::to_multiset_contains(m, f(x));
        assert(m.to_multiset() =~= m.remove(i).to_multiset().insert(f(x)));
    }
}

/// Texts that are the same in some order are the same once they are sorted.
proof fn lemma_sorted_the_same(x: Seq<Seq<char>>, y: Seq<Seq<char>>)
    requires
        x.to_multiset() == y.to_multiset(),
    ensures
        x.sort_by(text_order()) == y.sort_by(text_order()),
{
    lemma_text_order_total();
    x.lemma_sort_by_ensures(text_order());
    y.lemma_sort_by_ensures(text_order());
    vstd::seq_lib::lemma_sorted_unique(
        x.sort_by(text_order()),
        y.sort_by(text_order()),
        text_order(),
    );
}

/// What is not compared is not seen: observations that give the same answer have the same facts,
/// whatever their timestamps, the size of their times to live, the order of their locks and of the
/// parts of a mixed class, the text that their error prints, and the payload of their message, as long as they agree on what the
/// comparison asks for besides.
pub proof fn what_is_not_asked_is_not_seen(
    a: Observation,
    b: Observation,
    prefix: Seq<char>,
    also: Seq<Seq<char>>,
)
    requires
        same_answer(a, b),
        forall|path: Seq<char>| #[trigger]
            also.contains(path) ==> opt_in_fact(a, path) == opt_in_fact(b, path),
    ensures
        facts(a, prefix, also) == facts(b, prefix, also),
    decreases also.len(),
{
    if also.len() == 0 {
        let text = |f: LockFact| fact_text(f, prefix);
        lemma_map_multiset(lock_facts(a.locks@), lock_facts(b.locks@), text);
        assert(lock_facts(a.locks@).map_values(text) =~= lock_texts(a.locks@, prefix));
        assert(lock_facts(b.locks@).map_values(text) =~= lock_texts(b.locks@, prefix));
        let x = lock_texts(a.locks@, prefix);
        let y = lock_texts(b.locks@, prefix);
        lemma_sorted_the_same(x, y);
        if a.class@ != b.class@ {
            let tag = |c: ClassView| c.tag();
            let v = a.class@->Mixed_parts;
            let w = b.class@->Mixed_parts;
            lemma_map_multiset(v, w, tag);
            assert(part_tags(v) =~= v.map_values(tag));
            assert(part_tags(w) =~= w.map_values(tag));
            lemma_sorted_the_same(part_tags(v), part_tags(w));
        }
        vstd::seq_lib::to_multiset_len(lock_facts(a.locks@));
        vstd::seq_lib::to_multiset_len(lock_facts(b.locks@));
        assert(a.locks@.len() == b.locks@.len());
    } else {
        let init = also.drop_last();
        assert forall|path: Seq<char>| #[trigger] init.contains(path) implies opt_in_fact(a, path)
            == opt_in_fact(b, path) by {
            let i = choose|i: int| 0 <= i < init.len() && init[i] == path;
            assert(also[i] == path);
            assert(also.contains(path));
        }
        what_is_not_asked_is_not_seen(a, b, prefix, init);
        assert(also.contains(also.last()));
    }
}

/// The type of a message is two names: that of the container and that of the message. What the
/// message holds is not read, a container without a message is its own type, and of several members
/// the first one counts.
pub proof fn a_message_type_is_two_names(
    container: Seq<char>,
    message: Seq<char>,
    payload: JsonView,
    members: Seq<(Seq<char>, JsonView)>,
)
    requires
        members.len() > 0,
    ensures
        message_type(JsonView::Object(seq![(container, JsonView::Object(seq![(message, payload)]))]))
            == container + "."@ + message,
        payload !is Object ==> message_type(JsonView::Object(seq![(container, payload)]))
            == container,
        message_type(JsonView::Object(seq![(container, JsonView::Object(Seq::empty()))]))
            == container,
        message_type(JsonView::Object(members)) == message_type(
            JsonView::Object(seq![least_member(members)]),
        ),
        message_type(JsonView::Object(seq![(container, JsonView::Object(members))]))
            == message_type(
            JsonView::Object(seq![(container, JsonView::Object(seq![least_member(members)]))]),
        ),
        message_type(JsonView::Object(Seq::empty())) == "<empty>"@,
        payload !is Object ==> message_type(payload) == "<malformed>"@,
{
    let one = seq![(message, payload)];
    assert(one.len() == 1 && least_member(one) == one[0]);
    let least = seq![least_member(members)];
    assert(least.len() == 1 && least_member(least) == least[0]);
    let a = seq![(container, JsonView::Object(one))];
    assert(a.len() == 1 && least_member(a) == a[0]);
    let b = seq![(container, payload)];
    assert(b.len() == 1 && least_member(b) == b[0]);
    let c = seq![(container, JsonView::Object(Seq::<(Seq<char>, JsonView)>::empty()))];
    assert(c.len() == 1 && least_member(c) == c[0]);
    let d = seq![(container, JsonView::Object(members))];
    assert(d.len() == 1 && least_member(d) == d[0]);
    let e = seq![(container, JsonView::Object(least))];
    assert(e.len() == 1 && least_member(e) == e[0]);
}

/// Asking for more adds exactly what is asked for: the defaults stay as they are, and at each path
/// that is asked for stands what the observation says there.
pub proof fn asking_adds_exactly_what_is_asked(
    obs: Observation,
    p: Seq<char>,
    also: Seq<Seq<char>>,
    path: Seq<char>,
)
    requires
        known_paths(also),
    ensures
        facts(obs, p, also).contains_key(path) <==> facts(obs, p, Seq::empty()).contains_key(path)
            || also.contains(path),
        !also.contains(path) ==> facts(obs, p, also)[path] == facts(obs, p, Seq::empty())[path],
        also.contains("native.type"@) ==> facts(obs, p, also)["native.type"@] == match obs.native {
            Some(n) => n.kind@,
            None => "<absent>"@,
        },
        also.contains("proto"@) ==> facts(obs, p, also)["proto"@] == match obs.proto {
            Some(m) => json_text(m@),
            None => "<absent>"@,
        },
        also.contains("errors.count"@) ==> facts(obs, p, also)["errors.count"@]
            == match obs.error_count {
            Some(n) => decimal(n as nat),
            None => "<absent>"@,
        },
{
    lemma_paths_differ();
    let f = default_facts(obs, p);
    lemma_opt_ins(f, obs, also, path);
    lemma_opt_ins(f, obs, also, "native.type"@);
    lemma_opt_ins(f, obs, also, "proto"@);
    lemma_opt_ins(f, obs, also, "errors.count"@);
    assert(facts(obs, p, Seq::empty()) == f);
}

/// Where both runs have a field, it is listed exactly where they differ in it, with what each of them
/// shows; and a field that only one run has is listed with what it shows there and as absent in the
/// other.
pub proof fn a_divergence_shows_both_sides(
    oracle: Facts,
    subject: Facts,
    d: Seq<DivergenceView>,
    step: Seq<char>,
    path: Seq<char>,
)
    requires
        all_disagreements(oracle, subject, d),
        oracle.contains_key(step),
        subject.contains_key(step),
    ensures
        oracle[step].contains_key(path) && subject[step].contains_key(path) ==> (oracle[step][path]
            != subject[step][path] <==> exists|i: int|
            0 <= i < d.len() && (#[trigger] d[i]).step == step && d[i].path == path),
        forall|i: int|
            0 <= i < d.len() && (#[trigger] d[i]).step == step && d[i].path == path ==> {
                &&& oracle[step].contains_key(path) ==> d[i].oracle == oracle[step][path]
                &&& subject[step].contains_key(path) ==> d[i].subject == subject[step][path]
                &&& !oracle[step].contains_key(path) ==> d[i].oracle == "<step absent>"@
                &&& !subject[step].contains_key(path) ==> d[i].subject == "<step absent>"@
                &&& oracle[step].contains_key(path) || subject[step].contains_key(path)
            },
{
    assert forall|i: int| 0 <= i < d.len() && (#[trigger] d[i]).step == step && d[i].path
        == path implies {
        &&& oracle[step].contains_key(path) ==> d[i].oracle == oracle[step][path]
        &&& subject[step].contains_key(path) ==> d[i].subject == subject[step][path]
        &&& !oracle[step].contains_key(path) ==> d[i].oracle == "<step absent>"@
        &&& !subject[step].contains_key(path) ==> d[i].subject == "<step absent>"@
        &&& oracle[step].contains_key(path) || subject[step].contains_key(path)
        &&& d[i].oracle != d[i].subject
    } by {
        assert(d.contains(d[i]));
        assert(disagreement(oracle, subject, d[i]));
    }
    if oracle[step].contains_key(path) && subject[step].contains_key(path) && oracle[step][path]
        != subject[step][path] {
        let x = DivergenceView {
            step,
            path,
            oracle: oracle[step][path],
            subject: subject[step][path],
        };
        assert(disagreement(oracle, subject, x));
        assert(d.contains(x));
        let i = choose|i: int| 0 <= i < d.len() && d[i] == x;
        assert(d[i].step == step);
    }
}

/// A step that only one run has, and of which no field says that it is there, is listed once: at the
/// class, as absent in the run that has it and as an absent step in the other.
pub proof fn a_silent_step_is_listed_at_the_class(
    oracle: Facts,
    subject: Facts,
    d: Seq<DivergenceView>,
    step: Seq<char>,
)
    requires
        all_disagreements(oracle, subject, d),
        oracle.contains_key(step),
        !subject.contains_key(step),
        forall|path: Seq<char>| #[trigger]
            oracle[step].contains_key(path) ==> oracle[step][path] == "<step absent>"@,
    ensures
        forall|x: DivergenceView|
            x.step == step ==> (#[trigger] d.contains(x) <==> x.path == "class"@ && x.oracle
                == "<absent>"@ && x.subject == "<step absent>"@),
{
    assert forall|x: DivergenceView| x.step == step implies (#[trigger] d.contains(x) <==> x.path
        == "class"@ && x.oracle == "<absent>"@ && x.subject == "<step absent>"@) by {
        assert(d.contains(x) <==> disagreement(oracle, subject, x));
        assert(facts_at(oracle, step) == oracle[step]);
    }
}

/// Of the steps with one id the last one counts.
pub proof fn the_last_step_with_an_id_counts(
    steps: Seq<Step>,
    p: Seq<char>,
    also: Seq<Seq<char>>,
    step: Step,
    id: Seq<char>,
)
    ensures
        projected(steps.push(step), p, also).contains_key(step.id@),
        projected(steps.push(step), p, also)[step.id@] == facts(step.observation, p, also),
        id != step.id@ ==> projected(steps.push(step), p, also).contains_key(id)
            == projected(steps, p, also).contains_key(id),
        id != step.id@ ==> projected(steps.push(step), p, also)[id] == projected(steps, p, also)[id],
        !projected(Seq::<Step>::empty(), p, also).contains_key(id),
{
    assert(steps.push(step).drop_last() =~= steps);
}

/// A step is in the projection exactly when some step of the run has its id, and its facts are
/// those of such a step.
proof fn lemma_projected(steps: Seq<Step>, prefix: Seq<char>, also: Seq<Seq<char>>, id: Seq<char>)
    ensures
        projected(steps, prefix, also).contains_key(id) <==> exists|i: int|
            0 <= i < steps.len() && (#[trigger] steps[i]).id@ == id,
        projected(steps, prefix, also).contains_key(id) ==> exists|i: int|
            {
                &&& 0 <= i < steps.len()
                &&& (#[trigger] steps[i]).id@ == id
                &&& projected(steps, prefix, also)[id] == facts(
                    steps[i].observation,
                    prefix,
                    also,
                )
            },
    decreases steps.len(),
{
    if steps.len() > 0 {
        let init = steps.drop_last();
        let n = steps.len() - 1;
        lemma_projected(init, prefix, also, id);
        if steps.last().id@ == id {
            assert(steps[n].id@ == id);
        } else {
            if projected(init, prefix, also).contains_key(id) {
                let i = choose|i: int|
                    {
                        &&& 0 <= i < init.len()
                        &&& (#[trigger] init[i]).id@ == id
                        &&& projected(init, prefix, also)[id] == facts(
                            init[i].observation,
                            prefix,
                            also,
                        )
                    };
                assert(steps[i].id@ == id);
            }
            if exists|i: int| 0 <= i < steps.len() && (#[trigger] steps[i]).id@ == id {
                let i = choose|i: int| 0 <= i < steps.len() && (#[trigger] steps[i]).id@ == id;
                assert(init[i].id@ == id);
            }
        }
    }
}

/// A run has a step with this id.
pub open spec fn has_step(steps: Seq<Step>, id: Seq<char>) -> bool {
    exists|i: int| 0 <= i < steps.len() && (#[trigger] steps[i]).id@ == id
}

proof fn lemma_step_class(steps: Seq<Step>, prefix: Seq<char>, also: Seq<Seq<char>>, id: Seq<char>)
    requires
        known_paths(also),
        has_step(steps, id),
    ensures
        projected(steps, prefix, also).contains_key(id),
        projected(steps, prefix, also)[id].contains_key("class"@),
        projected(steps, prefix, also)[id]["class"@] != "<step absent>"@,
{
    lemma_projected(steps, prefix, also, id);
    let i = choose|i: int|
        {
            &&& 0 <= i < steps.len()
            &&& (#[trigger] steps[i]).id@ == id
            &&& projected(steps, prefix, also)[id] == facts(steps[i].observation, prefix, also)
        };
    let obs = steps[i].observation;
    lemma_paths_differ();
    lemma_default_facts(obs, prefix);
    lemma_not_opt_in(also, "class"@);
    lemma_opt_ins(default_facts(obs, prefix), obs, also, "class"@);
    a_tag_is_a_word(obs.class@);
    reveal_strlit("<step absent>");
    assert("<step absent>"@[0] == '<');
}

/// A step that only one of two traces has is a divergence of the class: the trace that has the step
/// shows its class there.
pub proof fn a_missing_step_shows_in_the_class(
    a: Seq<Step>,
    p: Seq<char>,
    b: Seq<Step>,
    q: Seq<char>,
    also: Seq<Seq<char>>,
    id: Seq<char>,
    d: Seq<DivergenceView>,
)
    requires
        known_paths(also),
        has_step(a, id) != has_step(b, id),
        all_disagreements(projected(a, p, also), projected(b, q, also), d),
    ensures
        exists|i: int|
            {
                &&& 0 <= i < d.len()
                &&& (#[trigger] d[i]).step == id
                &&& d[i].path == "class"@
                &&& has_step(a, id) ==> d[i].subject == "<step absent>"@
                &&& has_step(b, id) ==> d[i].oracle == "<step absent>"@
            },
{
    let o = projected(a, p, also);
    let s = projected(b, q, also);
    lemma_projected(a, p, also, id);
    lemma_projected(b, q, also, id);
    if has_step(a, id) {
        lemma_step_class(a, p, also, id);
    } else {
        lemma_step_class(b, q, also, id);
    }
    let x = DivergenceView {
        step: id,
        path: "class"@,
        oracle: shown(facts_at(o, id), "class"@),
        subject: shown(facts_at(s, id), "class"@),
    };
    assert(disagreement(o, s, x));
    assert(d.contains(x));
    let i = choose|i: int| 0 <= i < d.len() && d[i] == x;
    assert(d[i].step == id);
}

/// Where two observations show the same at every path, their facts are the same.
proof fn lemma_shown_the_same(
    a: Observation,
    p: Seq<char>,
    b: Observation,
    q: Seq<char>,
    also: Seq<Seq<char>>,
)
    requires
        known_paths(also),
        forall|path: Seq<char>|
            facts(a, p, also).contains_key(path) || facts(b, q, also).contains_key(path)
                ==> #[trigger] shown(facts(a, p, also), path) == shown(facts(b, q, also), path),
    ensures
        facts(a, p, also) == facts(b, q, also),
{
    let f = facts(a, p, also);
    let g = facts(b, q, also);
    let f0 = default_facts(a, p);
    let g0 = default_facts(b, q);
    lemma_paths_differ();
    lemma_default_facts(a, p);
    lemma_default_facts(b, q);
    lemma_not_opt_in(also, "class"@);
    lemma_opt_ins(f0, a, also, "class"@);
    lemma_opt_ins(g0, b, also, "class"@);
    assert(shown(f, "class"@) == shown(g, "class"@));
    tags_tell_classes_apart(a.class@, b.class@);
    lemma_not_opt_in(also, "proto.present"@);
    lemma_opt_ins(f0, a, also, "proto.present"@);
    lemma_opt_ins(g0, b, also, "proto.present"@);
    assert(shown(f, "proto.present"@) == shown(g, "proto.present"@));
    assert forall|path: Seq<char>|
        #![trigger f.dom().contains(path)]
        #![trigger g.dom().contains(path)]
        f.dom().contains(path) == g.dom().contains(path) && (f.dom().contains(path) ==> f[path]
            == g[path]) by {
        lemma_opt_ins(f0, a, also, path);
        lemma_opt_ins(g0, b, also, path);
        if f.contains_key(path) || g.contains_key(path) {
            assert(shown(f, path) == shown(g, path));
        }
    }
    assert(f =~= g);
}

/// No divergence is reported exactly when the two runs have the same facts.
pub proof fn no_divergence_is_agreement(
    a: Seq<Step>,
    p: Seq<char>,
    b: Seq<Step>,
    q: Seq<char>,
    also: Seq<Seq<char>>,
    d: Seq<DivergenceView>,
)
    requires
        known_paths(also),
        all_disagreements(projected(a, p, also), projected(b, q, also), d),
    ensures
        d.len() == 0 <==> projected(a, p, also) == projected(b, q, also),
{
    let o = projected(a, p, also);
    let s = projected(b, q, also);
    if o == s {
        a_run_agrees_with_itself(o, d);
    }
    if d.len() == 0 {
        assert forall|id: Seq<char>|
            #![trigger o.dom().contains(id)]
            #![trigger s.dom().contains(id)]
            o.dom().contains(id) == s.dom().contains(id) && (o.dom().contains(id) ==> o[id]
                == s[id]) by {
            lemma_projected(a, p, also, id);
            lemma_projected(b, q, also, id);
            if has_step(a, id) != has_step(b, id) {
                a_missing_step_is_a_divergence(o, s, d, id);
            }
            if o.contains_key(id) {
                let i = choose|i: int|
                    {
                        &&& 0 <= i < a.len()
                        &&& (#[trigger] a[i]).id@ == id
                        &&& o[id] == facts(a[i].observation, p, also)
                    };
                let j = choose|j: int|
                    {
                        &&& 0 <= j < b.len()
                        &&& (#[trigger] b[j]).id@ == id
                        &&& s[id] == facts(b[j].observation, q, also)
                    };
                let f = facts(a[i].observation, p, also);
                let g = facts(b[j].observation, q, also);
                assert forall|path: Seq<char>|
                    f.contains_key(path) || g.contains_key(path) implies #[trigger] shown(f, path)
                    == shown(g, path) by {
                    let x = DivergenceView {
                        step: id,
                        path,
                        oracle: shown(f, path),
                        subject: shown(g, path),
                    };
                    if shown(f, path) != shown(g, path) {
                        assert(disagreement(o, s, x));
                        assert(d.contains(x));
                    }
                }
                lemma_shown_the_same(a[i].observation, p, b[j].observation, q, also);
            }
        }
        assert(o =~= s);
    }
}

/// Runs that take the same steps and see the same facts at each of them have the same facts.
pub proof fn same_steps_same_facts(
    a: Seq<Step>,
    p: Seq<char>,
    b: Seq<Step>,
    q: Seq<char>,
    also: Seq<Seq<char>>,
)
    requires
        a.len() == b.len(),
        forall|i: int|
            0 <= i < a.len() ==> (#[trigger] a[i]).id@ == b[i].id@ && facts(
                a[i].observation,
                p,
                also,
            ) == facts(b[i].observation, q, also),
    ensures
        projected(a, p, also) == projected(b, q, also),
    decreases a.len(),
{
    if a.len() > 0 {
        let n = a.len() - 1;
        assert(a[n].id@ == b[n].id@);
        assert forall|i: int| 0 <= i < n implies (#[trigger] a.drop_last()[i]).id@
            == b.drop_last()[i].id@ && facts(a.drop_last()[i].observation, p, also) == facts(
            b.drop_last()[i].observation,
            q,
            also,
        ) by {
            assert(a[i].id@ == b[i].id@);
        }
        same_steps_same_facts(a.drop_last(), p, b.drop_last(), q, also);
    }
}

} // verus!
