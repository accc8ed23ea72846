//! JSON values as evidence: carried whole, read two levels deep, and printed.

use vstd::prelude::*;
use vstd::string::*;
use vstd::utf8::*;

use crate::order::{
    lemma_bytes_lt_asymmetric, lemma_bytes_lt_transitive, lemma_text_lt_total, text_less, text_lt,
    text_same,
};
use crate::text::{chars_of, decimal, decimal_text, decimals_tell_numbers_apart, digit};

verus! {

/// A JSON value.
#[derive(Debug, PartialEq, Eq)]
pub enum Json {
    Null,
    Bool(bool),
    /// A number, by its JSON text.
    Number(String),
    Str(String),
    Array(Vec<Json>),
    /// The members by name. Their order does not matter, and of a repeated name the last counts.
    Object(Vec<(String, Json)>),
}

/// What a [`Json`] value says.
pub enum JsonView {
    Null,
    Bool(bool),
    Number(Seq<char>),
    Str(Seq<char>),
    Array(Seq<JsonView>),
    Object(Seq<(Seq<char>, JsonView)>),
}

/// What each of the values says.
pub open spec fn json_views(items: Seq<Json>) -> Seq<JsonView>
    decreases items,
{
    Seq::new(
        items.len(),
        |i: int|
            if 0 <= i < items.len() {
                json_view(items[i])
            } else {
                JsonView::Null
            },
    )
}

/// What each of the members says.
pub open spec fn member_views(members: Seq<(String, Json)>) -> Seq<(Seq<char>, JsonView)>
    decreases members,
{
    Seq::new(
        members.len(),
        |i: int|
            if 0 <= i < members.len() {
                (members[i].0@, json_view(members[i].1))
            } else {
                (Seq::empty(), JsonView::Null)
            },
    )
}

/// What a value says.
pub open spec fn json_view(json: Json) -> JsonView
    decreases json,
{
    match json {
        Json::Null => JsonView::Null,
        Json::Bool(b) => JsonView::Bool(b),
        Json::Number(n) => JsonView::Number(n@),
        Json::Str(s) => JsonView::Str(s@),
        Json::Array(items) => JsonView::Array(json_views(items@)),
        Json::Object(members) => JsonView::Object(member_views(members@)),
    }
}

impl View for Json {
    type V = JsonView;

    open spec fn view(&self) -> JsonView {
        json_view(*self)
    }
}

/// The compact text that `serde_json::to_string` prints for a value.
pub uninterp spec fn json_text(json: JsonView) -> Seq<char>;

/// The indented text that `serde_json::to_string_pretty` prints for a value.
pub uninterp spec fn json_pretty(json: JsonView) -> Seq<char>;

/// What `serde_json::from_str` reads a text as: the value, or why the text is no JSON.
pub uninterp spec fn json_read(text: Seq<char>) -> Result<JsonView, Seq<char>>;

/// The value of `serde_json` that `json` stands for. It only changes the type: a number stands for
/// what its text is as JSON, or for null where it is none. Nothing is claimed of the value, which is
/// handed to `serde_json::to_string` and `serde_json::to_string_pretty` below.
#[verifier::external_body]
fn outside_value(json: &Json) -> (r: serde_json::Value) {
    match json {
        Json::Null => serde_json::Value::Null,
        Json::Bool(b) => serde_json::Value::Bool(*b),
        Json::Number(n) => n.parse().unwrap_or_default(),
        Json::Str(s) => serde_json::Value::String(s.clone()),
        Json::Array(items) => items.iter().map(outside_value).collect(),
        Json::Object(members) => {
            members.iter().map(|m| (m.0.clone(), outside_value(&m.1))).collect()
        },
    }
}

/// The value that a value of `serde_json` is. It only changes the type: a number goes by its text,
/// and members stay in the order in which they are kept. Nothing is claimed of the value, which
/// comes from `serde_json::from_str` below.
#[verifier::external_body]
fn own_value(value: &serde_json::Value) -> (r: Json) {
    match value {
        serde_json::Value::Null => Json::Null,
        serde_json::Value::Bool(b) => Json::Bool(*b),
        serde_json::Value::Number(n) => Json::Number(n.to_string()),
        serde_json::Value::String(s) => Json::Str(s.clone()),
        serde_json::Value::Array(items) => Json::Array(items.iter().map(own_value).collect()),
        serde_json::Value::Object(members) => Json::Object(
            members.iter().map(|(name, member)| (name.clone(), own_value(member))).collect(),
        ),
    }
}

/// A JSON value of the outside crate: `serde_json::Value`.
#[verifier::external_type_specification]
#[verifier::external_body]
pub struct ExValue(serde_json::Value);

/// `serde_json::to_string` on the value that `json` stands for. What it prints is a function of the
/// value alone.
#[verifier::external_body]
pub(crate) fn print_json(json: &Json) -> (r: String)
    ensures
        r@ == json_text(json@),
{
    serde_json::to_string(&outside_value(json)).unwrap_or_default()
}

/// `serde_json::to_string_pretty` on the value that `json` stands for. What it prints is a function
/// of the value alone.
#[verifier::external_body]
pub(crate) fn print_pretty(json: &Json) -> (r: String)
    ensures
        r@ == json_pretty(json@),
{
    serde_json::to_string_pretty(&outside_value(json)).unwrap_or_default()
}

/// `serde_json::from_str` into a value, with the text of its error where it refuses. What it reads,
/// and why it refuses, is a function of the text alone.
#[verifier::external_body]
pub(crate) fn read_json(text: &str) -> (r: Result<Json, String>)
    ensures
        match r {
            Ok(json) => json_read(text@) == Ok::<JsonView, Seq<char>>(json@),
            Err(why) => json_read(text@) == Err::<JsonView, Seq<char>>(why@),
        },
{
    match serde_json::from_str::<serde_json::Value>(text) {
        Ok(value) => Ok(own_value(&value)),
        Err(e) => Err(e.to_string()),
    }
}

/// The member that is read first: the one with the smallest name, and of these the last.
pub open spec fn least_member(members: Seq<(Seq<char>, JsonView)>) -> (Seq<char>, JsonView)
    decreases members.len(),
{
    if members.len() <= 1 {
        members[0]
    } else {
        let least = least_member(members.drop_last());
        if text_lt(least.0, members.last().0) {
            least
        } else {
            members.last()
        }
    }
}

/// The member that is read first.
pub(crate) fn first_member(members: &Vec<(String, Json)>) -> (r: &(String, Json))
    requires
        members@.len() > 0,
    ensures
        (r.0@, r.1@) == least_member(member_views(members@)),
{
    let mut least: usize = 0;
    let mut i: usize = 1;
    let ghost views = member_views(members@);
    while i < members.len()
        invariant
            views == member_views(members@),
            least < i <= members@.len(),
            (members@[least as int].0@, members@[least as int].1@) == least_member(
                views.take(i as int),
            ),
        decreases members@.len() - i,
    {
        proof {
            let next = views.take(i + 1);
            assert(next.drop_last() =~= views.take(i as int));
            assert(next.last() == (members@[i as int].0@, members@[i as int].1@));
        }
        if !text_less(members[least].0.as_str(), members[i].0.as_str()) {
            least = i;
        }
        i = i + 1;
    }
    assert(views.take(i as int) =~= views);
    &members[least]
}

impl Clone for Json {
    fn clone(&self) -> (r: Self)
        ensures
            r@ == self@,
        decreases self,
    {
        match self {
            Json::Null => Json::Null,
            Json::Bool(b) => Json::Bool(*b),
            Json::Number(n) => Json::Number(n.clone()),
            Json::Str(s) => Json::Str(s.clone()),
            Json::Array(items) => {
                let mut copies: Vec<Json> = Vec::new();
                let mut i: usize = 0;
                while i < items.len()
                    invariant
                        i <= items@.len(),
                        copies@.len() == i,
                        forall|j: int| 0 <= j < i ==> (#[trigger] copies@[j])@ == items@[j]@,
                        decreases_to!(self => items@),
                    decreases items@.len() - i,
                {
                    copies.push(items[i].clone());
                    i = i + 1;
                }
                proof {
                    assert(json_views(copies@) =~= json_views(items@));
                }
                Json::Array(copies)
            },
            Json::Object(members) => {
                let mut copies: Vec<(String, Json)> = Vec::new();
                let mut i: usize = 0;
                while i < members.len()
                    invariant
                        i <= members@.len(),
                        copies@.len() == i,
                        forall|j: int|
                            0 <= j < i ==> (#[trigger] copies@[j]).0@ == members@[j].0@
                                && copies@[j].1@ == members@[j].1@,
                        decreases_to!(self => members@),
                    decreases members@.len() - i,
                {
                    proof {
                        assert(decreases_to!(members@ => members@[i as int]));
                        assert(decreases_to!(members@[i as int] => members@[i as int].1));
                    }
                    copies.push((members[i].0.clone(), members[i].1.clone()));
                    i = i + 1;
                }
                proof {
                    assert(member_views(copies@) =~= member_views(members@));
                }
                Json::Object(copies)
            },
        }
    }
}

/// The member with this name; of a repeated name, the last.
pub open spec fn member(members: Seq<(Seq<char>, JsonView)>, name: Seq<char>) -> Option<JsonView>
    decreases members.len(),
{
    if members.len() == 0 {
        None
    } else if members.last().0 == name {
        Some(members.last().1)
    } else {
        member(members.drop_last(), name)
    }
}

impl JsonView {
    /// The member with this name, where the value is an object that has one.
    pub open spec fn get(self, name: Seq<char>) -> Option<JsonView> {
        match self {
            JsonView::Object(members) => member(members, name),
            _ => None,
        }
    }

    /// The text of the value, where it is a string.
    pub open spec fn as_str(self) -> Option<Seq<char>> {
        match self {
            JsonView::Str(s) => Some(s),
            _ => None,
        }
    }

    /// The items of the value, where it is an array.
    pub open spec fn as_array(self) -> Option<Seq<JsonView>> {
        match self {
            JsonView::Array(items) => Some(items),
            _ => None,
        }
    }

    /// The value is the number `n`.
    pub open spec fn is_u64(self, n: u64) -> bool {
        self matches JsonView::Number(text) && text == decimal(n as nat)
    }

    /// The number that the value is, where it is one that an unsigned 64-bit integer holds.
    pub open spec fn as_u64(self) -> Option<u64> {
        if exists|n: u64| self.is_u64(n) {
            Some(choose|n: u64| self.is_u64(n))
        } else {
            None
        }
    }
}

/// A value is at most one number.
proof fn lemma_as_u64(json: JsonView, n: u64)
    requires
        json.is_u64(n),
    ensures
        json.as_u64() == Some(n),
{
    let m = choose|m: u64| json.is_u64(m);
    decimals_tell_numbers_apart(n as nat, m as nat);
}

/// The view of a value keeps what it is, its text, its items and its members.
pub proof fn a_value_says_what_it_is(json: Json)
    ensures
        json is Null <==> json@ is Null,
        json is Bool <==> json@ is Bool,
        json is Number <==> json@ is Number,
        json is Str <==> json@ is Str,
        json is Array <==> json@ is Array,
        json is Object <==> json@ is Object,
        json is Bool ==> json@->Bool_0 == json->Bool_0,
        json is Number ==> json@->Number_0 == json->Number_0@,
        json is Str ==> json@->Str_0 == json->Str_0@,
        json is Array ==> json@->Array_0.len() == json->Array_0@.len(),
        json is Array ==> forall|i: int|
            0 <= i < json->Array_0@.len() ==> (#[trigger] json->Array_0@[i])@ == json@->Array_0[i],
        json is Object ==> json@->Object_0.len() == json->Object_0@.len(),
        json is Object ==> forall|i: int|
            0 <= i < json->Object_0@.len() ==> (#[trigger] json->Object_0@[i]).0@
                == json@->Object_0[i].0 && json->Object_0@[i].1@ == json@->Object_0[i].1,
{
}

/// The last member with a name is the one with that name, and a member with another name changes
/// nothing.
pub proof fn the_last_member_with_a_name_counts(
    members: Seq<(Seq<char>, JsonView)>,
    name: Seq<char>,
    value: JsonView,
    other: Seq<char>,
)
    ensures
        JsonView::Object(members.push((name, value))).get(name) == Some(value),
        other != name ==> JsonView::Object(members.push((name, value))).get(other)
            == JsonView::Object(members).get(other),
        JsonView::Object(Seq::empty()).get(name) is None,
{
    assert(members.push((name, value)).drop_last() =~= members);
}

/// A value is read as what it is and as nothing else: text as its text, an array as its items, and a
/// number as the one number whose decimal it is.
pub proof fn a_value_is_read_as_what_it_is(json: JsonView, s: Seq<char>, items: Seq<JsonView>, n: u64)
    ensures
        json.as_str() == Some(s) <==> json == JsonView::Str(s),
        json.as_array() == Some(items) <==> json == JsonView::Array(items),
        json.as_u64() == Some(n) <==> json == JsonView::Number(decimal(n as nat)),
        json !is Object ==> json.get(s) is None,
{
    if json == JsonView::Number(decimal(n as nat)) {
        assert(json.is_u64(n));
        lemma_as_u64(json, n);
    }
}

/// The member that is read first is one of the members; no name is smaller than its name, and no
/// later member has it.
pub proof fn the_first_member_has_the_smallest_name(members: Seq<(Seq<char>, JsonView)>)
    requires
        members.len() > 0,
    ensures
        exists|i: int|
            {
                &&& 0 <= i < members.len()
                &&& #[trigger] members[i] == least_member(members)
                &&& forall|j: int|
                    0 <= j < members.len() ==> !text_lt(
                        (#[trigger] members[j]).0,
                        least_member(members).0,
                    )
                &&& forall|j: int|
                    i < j < members.len() ==> (#[trigger] members[j]).0 != least_member(members).0
            },
    decreases members.len(),
{
    let n = members.len() - 1;
    lemma_text_lt_irreflexive(members[n].0);
    if n == 0 {
        assert(members[0] == least_member(members));
    } else {
        let init = members.drop_last();
        the_first_member_has_the_smallest_name(init);
        let least = least_member(init);
        let last = members.last();
        let i = choose|i: int|
            {
                &&& 0 <= i < init.len()
                &&& #[trigger] init[i] == least
                &&& forall|j: int|
                    0 <= j < init.len() ==> !text_lt((#[trigger] init[j]).0, least.0)
                &&& forall|j: int| i < j < init.len() ==> (#[trigger] init[j]).0 != least.0
            };
        if text_lt(least.0, last.0) {
            lemma_bytes_lt_asymmetric(encode_utf8(least.0), encode_utf8(last.0));
            assert(members[i] == least_member(members));
            assert forall|j: int| 0 <= j < members.len() implies !text_lt(
                (#[trigger] members[j]).0,
                least.0,
            ) by {
                if j < n {
                    assert(!text_lt(init[j].0, least.0));
                }
            }
            assert forall|j: int| i < j < members.len() implies (#[trigger] members[j]).0
                != least.0 by {
                if j < n {
                    assert(init[j].0 != least.0);
                }
            }
        } else {
            assert(members[n] == least_member(members));
            assert forall|j: int| 0 <= j < members.len() implies !text_lt(
                (#[trigger] members[j]).0,
                last.0,
            ) by {
                if j < n {
                    assert(!text_lt(init[j].0, least.0));
                    if text_lt(init[j].0, last.0) {
                        lemma_text_lt_total(least.0, last.0);
                        if text_lt(last.0, least.0) {
                            lemma_bytes_lt_transitive(
                                encode_utf8(init[j].0),
                                encode_utf8(last.0),
                                encode_utf8(least.0),
                            );
                        }
                    }
                }
            }
        }
    }
}

proof fn lemma_text_lt_irreflexive(a: Seq<char>)
    ensures
        !text_lt(a, a),
{
    if text_lt(a, a) {
        lemma_bytes_lt_asymmetric(encode_utf8(a), encode_utf8(a));
    }
}

impl Json {
    /// The member with this name.
    pub fn get(&self, name: &str) -> (r: Option<&Json>)
        ensures
            r is Some <==> self@.get(name@) is Some,
            r is Some ==> r->0@ == self@.get(name@)->0,
    {
        match self {
            Json::Object(members) => {
                let ghost views = member_views(members@);
                let mut i: usize = members.len();
                proof {
                    assert(views.take(i as int) =~= views);
                }
                while i > 0
                    invariant
                        views == member_views(members@),
                        i <= members@.len(),
                        member(views.take(i as int), name@) == member(views, name@),
                        self@ == JsonView::Object(views),
                    decreases i,
                {
                    i = i - 1;
                    proof {
                        let upto = views.take(i + 1);
                        assert(upto.last() == (members@[i as int].0@, members@[i as int].1@));
                        assert(upto.drop_last() =~= views.take(i as int));
                    }
                    if text_same(members[i].0.as_str(), name) {
                        return Some(&members[i].1);
                    }
                }
                proof {
                    assert(views.take(0).len() == 0);
                }
                None
            },
            _ => None,
        }
    }

    /// The text of the value, where it is a string.
    pub fn as_str(&self) -> (r: Option<&str>)
        ensures
            r is Some <==> self@.as_str() is Some,
            r is Some ==> r->0@ == self@.as_str()->0,
    {
        match self {
            Json::Str(s) => Some(s.as_str()),
            _ => None,
        }
    }

    /// The number that the value is, where it is one that an unsigned 64-bit integer holds.
    pub fn as_u64(&self) -> (r: Option<u64>)
        ensures
            r == self@.as_u64(),
    {
        match self {
            Json::Number(text) => {
                let guess: Option<u64> = read_decimal(text.as_str());
                match guess {
                    Some(n) => {
                        if text_same(decimal_text(n as u128).as_str(), text.as_str()) {
                            proof {
                                lemma_as_u64(self@, n);
                            }
                            Some(n)
                        } else {
                            proof {
                                assert forall|m: u64| !self@.is_u64(m) by {
                                    if self@.is_u64(m) {
                                        lemma_decimal_value(m as nat);
                                    }
                                }
                            }
                            None
                        }
                    },
                    None => {
                        proof {
                            assert forall|m: u64| !self@.is_u64(m) by {
                                if self@.is_u64(m) {
                                    lemma_decimal_value(m as nat);
                                }
                            }
                        }
                        None
                    },
                }
            },
            _ => None,
        }
    }
}

/// The characters are decimal digits.
spec fn all_digits(s: Seq<char>) -> bool {
    forall|i: int| 0 <= i < s.len() ==> '0' <= #[trigger] s[i] <= '9'
}

/// The number that digits spell.
spec fn digits_value(s: Seq<char>) -> nat
    decreases s.len(),
{
    if s.len() == 0 {
        0
    } else {
        (10 * digits_value(s.drop_last()) + (s.last() as int - '0' as int)) as nat
    }
}

proof fn lemma_decimal_value(n: nat)
    ensures
        all_digits(decimal(n)),
        digits_value(decimal(n)) == n,
    decreases n,
{
    if n < 10 {
        let s = decimal(n);
        assert(s.drop_last() =~= Seq::<char>::empty());
        assert(s.last() == digit(n as int));
        assert(digits_value(s.drop_last()) == 0);
    } else {
        lemma_decimal_value(n / 10);
        let s = decimal(n / 10).push(digit((n % 10) as int));
        assert(s.drop_last() =~= decimal(n / 10));
        assert(s.last() == digit((n % 10) as int));
        assert(digits_value(s) == 10 * (n / 10) + n % 10);
        assert forall|i: int| 0 <= i < s.len() implies '0' <= #[trigger] s[i] <= '9' by {
            if i < s.len() - 1 {
                assert(decimal(n / 10)[i] == s[i]);
            }
        }
    }
}

proof fn lemma_digits_grow(s: Seq<char>, i: int)
    requires
        all_digits(s),
        0 <= i <= s.len(),
    ensures
        digits_value(s.take(i)) <= digits_value(s),
    decreases s.len() - i,
{
    if i < s.len() {
        let next = s.take(i + 1);
        assert(next.drop_last() =~= s.take(i));
        assert(next.last() == s[i]);
        lemma_digits_grow(s, i + 1);
    } else {
        assert(s.take(i) =~= s);
    }
}

/// The number that the digits spell, where it fits.
fn read_decimal(text: &str) -> (r: Option<u64>)
    ensures
        r is Some <==> all_digits(text@) && digits_value(text@) <= u64::MAX,
        r is Some ==> r->0 == digits_value(text@),
{
    let chars: Vec<char> = chars_of(text);
    let mut n: u64 = 0;
    let mut i: usize = 0;
    proof {
        assert(text@.take(0) =~= Seq::<char>::empty());
    }
    while i < chars.len()
        invariant
            chars@ == text@,
            i <= chars@.len(),
            all_digits(text@.take(i as int)),
            n == digits_value(text@.take(i as int)),
        decreases chars@.len() - i,
    {
        let ch: char = chars[i];
        let c: u32 = ch as u32;
        proof {
            let next = text@.take(i + 1);
            assert(next.drop_last() =~= text@.take(i as int));
            assert(next.last() == text@[i as int]);
        }
        if ch < '0' || ch > '9' {
            return None;
        }
        proof {
            assert forall|j: int| 0 <= j < i + 1 implies '0' <= #[trigger] text@.take(i + 1)[j]
                <= '9' by {
                if j < i {
                    assert('0' <= text@.take(i as int)[j] <= '9');
                }
            }
        }
        let d: u64 = (c - 48) as u64;
        if n > (u64::MAX - d) / 10 {
            proof {
                assert(digits_value(text@.take(i + 1)) > u64::MAX);
                if all_digits(text@) {
                    lemma_digits_grow(text@, i + 1);
                }
            }
            return None;
        }
        n = 10 * n + d;
        i = i + 1;
    }
    proof {
        assert(text@.take(i as int) =~= text@);
    }
    Some(n)
}

/// The value `{name: value}`.
pub open spec fn singleton(name: Seq<char>, value: JsonView) -> JsonView {
    JsonView::Object(seq![(name, value)])
}

/// The value `{name: value}`.
pub fn object_of(name: &str, value: Json) -> (r: Json)
    ensures
        r@ == singleton(name@, value@),
{
    let mut members: Vec<(String, Json)> = Vec::new();
    members.push((name.to_owned(), value));
    proof {
        assert(member_views(members@) =~= seq![(name@, value@)]);
    }
    Json::Object(members)
}

} // verus!
