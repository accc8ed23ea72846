//! The placement driver's own account of the cluster: what it reports, and what it is asked to do.

use vstd::prelude::*;
use vstd::string::*;

use crate::cluster::{
    a_region_holds_what_is_between_its_bounds, bytes_to_hex, encode_key, encoded_key, hex_bytes,
    hex_gives_back_the_bytes, hex_of, hex_to_bytes, is_hex, RegionInfo,
};
use crate::json::{
    a_value_is_read_as_what_it_is, json_views, member, member_views, Json, JsonView,
};
use crate::order::{bytes_lt, text_same};
use crate::text::{decimal, decimal_text};

verus! {

/// How many regions a report counts.
pub open spec fn counted(report: JsonView) -> Option<u64> {
    match report.get("count"@) {
        Some(count) => count.as_u64(),
        None => None,
    }
}

/// How many regions the cluster has, by a report of them.
pub fn region_count(report: &Json) -> (r: Option<u64>)
    ensures
        r == counted(report@),
{
    match report.get("count") {
        Some(count) => count.as_u64(),
        None => None,
    }
}

/// The id in an entry, which is zero where the entry gives none.
pub open spec fn id_in(entry: JsonView) -> u64 {
    match entry.get("id"@) {
        Some(id) => match id.as_u64() {
            Some(n) => n,
            None => 0,
        },
        None => 0,
    }
}

/// A bound in an entry, which is no bound where the entry gives none.
pub open spec fn bound_in(entry: JsonView, name: Seq<char>) -> Seq<char> {
    match entry.get(name) {
        Some(bound) => match bound.as_str() {
            Some(text) => text,
            None => Seq::empty(),
        },
        None => Seq::empty(),
    }
}

/// The bounds in an entry are hexadecimal.
pub open spec fn bounds_read(entry: JsonView) -> bool {
    is_hex(bound_in(entry, "start_key"@)) && is_hex(bound_in(entry, "end_key"@))
}

/// The bounds in every entry are hexadecimal.
pub open spec fn all_bounds_read(entries: Seq<JsonView>) -> bool {
    forall|i: int| 0 <= i < entries.len() ==> bounds_read(#[trigger] entries[i])
}

/// `region` is what an entry of the report says.
pub open spec fn reads(entry: JsonView, region: RegionInfo) -> bool {
    &&& region.id == id_in(entry)
    &&& region.start@ == hex_bytes(bound_in(entry, "start_key"@))
    &&& region.end@ == hex_bytes(bound_in(entry, "end_key"@))
}

/// The list with this name in a report.
pub open spec fn listed(report: JsonView, name: Seq<char>) -> Option<Seq<JsonView>> {
    match report.get(name) {
        Some(list) => list.as_array(),
        None => None,
    }
}

/// The list with this name in a report.
fn list_in<'a>(report: &'a Json, name: &str) -> (r: Option<&'a Vec<Json>>)
    ensures
        match r {
            Some(items) => listed(report@, name@) == Some(json_views(items@)),
            None => listed(report@, name@) is None,
        },
{
    match report.get(name) {
        Some(Json::Array(items)) => Some(items),
        _ => None,
    }
}

/// The id in an entry.
fn read_id(entry: &Json) -> (r: u64)
    ensures
        r == id_in(entry@),
{
    match entry.get("id") {
        Some(id) => match id.as_u64() {
            Some(n) => n,
            None => 0,
        },
        None => 0,
    }
}

/// A bound in an entry, where it is hexadecimal.
fn read_bound(entry: &Json, name: &str) -> (r: Option<Vec<u8>>)
    ensures
        match r {
            Some(bytes) => is_hex(bound_in(entry@, name@)) && bytes@ == hex_bytes(
                bound_in(entry@, name@),
            ),
            None => !is_hex(bound_in(entry@, name@)),
        },
{
    proof {
        assert(is_hex(Seq::<char>::empty()));
        assert(hex_bytes(Seq::<char>::empty()) =~= Seq::<u8>::empty());
    }
    match entry.get(name) {
        Some(bound) => match bound.as_str() {
            Some(text) => hex_to_bytes(text),
            None => Some(Vec::new()),
        },
        None => Some(Vec::new()),
    }
}

/// The regions of a report, or nothing where it lists none or a bound in it is not hexadecimal.
pub fn regions(report: &Json) -> (r: Option<Vec<RegionInfo>>)
    ensures
        match listed(report@, "regions"@) {
            Some(entries) => match r {
                Some(regions) => {
                    &&& all_bounds_read(entries)
                    &&& regions@.len() == entries.len()
                    &&& forall|i: int|
                        0 <= i < entries.len() ==> reads(entries[i], #[trigger] regions@[i])
                },
                None => !all_bounds_read(entries),
            },
            None => r is None,
        },
{
    let items: &Vec<Json> = match list_in(report, "regions") {
        Some(items) => items,
        None => return None,
    };
    let ghost entries = json_views(items@);
    assert(entries.len() == items@.len());
    let mut out: Vec<RegionInfo> = Vec::new();
    let mut i: usize = 0;
    while i < items.len()
        invariant
            entries == json_views(items@),
            entries.len() == items@.len(),
            listed(report@, "regions"@) == Some(entries),
            i <= items@.len(),
            out@.len() == i,
            forall|j: int| 0 <= j < i ==> bounds_read(#[trigger] entries[j]),
            forall|j: int| 0 <= j < i ==> reads(entries[j], #[trigger] out@[j]),
        decreases items@.len() - i,
    {
        let entry: &Json = &items[i];
        assert(entries[i as int] == entry@);
        let start: Vec<u8> = match read_bound(entry, "start_key") {
            Some(start) => start,
            None => {
                assert(!all_bounds_read(entries));
                return None;
            },
        };
        let end: Vec<u8> = match read_bound(entry, "end_key") {
            Some(end) => end,
            None => {
                assert(!all_bounds_read(entries));
                return None;
            },
        };
        out.push(RegionInfo { id: read_id(entry), start, end });
        i = i + 1;
    }
    Some(out)
}

/// The id of the store in an entry, where the store is up and has one.
pub open spec fn up_in(entry: JsonView) -> Option<u64> {
    match entry.get("store"@) {
        Some(store) => match (store.get("state_name"@), store.get("id"@)) {
            (Some(state), Some(id)) => if state.as_str() == Some("Up"@) {
                id.as_u64()
            } else {
                None
            },
            _ => None,
        },
        None => None,
    }
}

/// The ids of the stores that are up, in order.
pub open spec fn up_among(entries: Seq<JsonView>) -> Seq<u64>
    decreases entries.len(),
{
    if entries.len() == 0 {
        Seq::empty()
    } else {
        match up_in(entries.last()) {
            Some(id) => up_among(entries.drop_last()).push(id),
            None => up_among(entries.drop_last()),
        }
    }
}

/// The id of the store in an entry, where the store is up and has one.
fn read_up(entry: &Json) -> (r: Option<u64>)
    ensures
        r == up_in(entry@),
{
    let store: &Json = match entry.get("store") {
        Some(store) => store,
        None => return None,
    };
    match (store.get("state_name"), store.get("id")) {
        (Some(state), Some(id)) => match state.as_str() {
            Some(name) => {
                if text_same(name, "Up") {
                    id.as_u64()
                } else {
                    None
                }
            },
            None => None,
        },
        _ => None,
    }
}

/// The ids of the stores that a report says are up. A report without a list says so of none.
pub fn stores_up(report: &Json) -> (r: Vec<u64>)
    ensures
        r@ == match listed(report@, "stores"@) {
            Some(entries) => up_among(entries),
            None => Seq::empty(),
        },
{
    let mut out: Vec<u64> = Vec::new();
    let items: &Vec<Json> = match list_in(report, "stores") {
        Some(items) => items,
        None => return out,
    };
    let ghost entries = json_views(items@);
    let mut i: usize = 0;
    proof {
        assert(entries.take(0) =~= Seq::<JsonView>::empty());
    }
    while i < items.len()
        invariant
            entries == json_views(items@),
            i <= items@.len(),
            out@ == up_among(entries.take(i as int)),
        decreases items@.len() - i,
    {
        proof {
            let upto = entries.take(i + 1);
            assert(upto.drop_last() =~= entries.take(i as int));
            assert(upto.last() == items@[i as int]@);
        }
        if let Some(id) = read_up(&items[i]) {
            out.push(id);
        }
        i = i + 1;
    }
    proof {
        assert(entries.take(i as int) =~= entries);
    }
    out
}

/// The request to split a region exactly at a raw key. The key goes as the bounds are reported.
pub open spec fn split_of(region_id: u64, at: Seq<u8>) -> JsonView {
    JsonView::Object(
        seq![
            ("name"@, JsonView::Str("split-region"@)),
            ("region_id"@, JsonView::Number(decimal(region_id as nat))),
            ("policy"@, JsonView::Str("usekey"@)),
            ("keys"@, JsonView::Array(seq![JsonView::Str(hex_of(encoded_key(at)))])),
        ],
    )
}

/// A region that is reported is read back: its id, and its bounds as they were spelled in
/// hexadecimal.
pub proof fn a_reported_region_is_read_back(region: RegionInfo)
    ensures
        ({
            let entry = JsonView::Object(
                seq![
                    ("id"@, JsonView::Number(decimal(region.id as nat))),
                    ("start_key"@, JsonView::Str(hex_of(region.start@))),
                    ("end_key"@, JsonView::Str(hex_of(region.end@))),
                ],
            );
            bounds_read(entry) && reads(entry, region)
        }),
{
    lemma_names();
    reveal_with_fuel(member, 4);
    let members = seq![
        ("id"@, JsonView::Number(decimal(region.id as nat))),
        ("start_key"@, JsonView::Str(hex_of(region.start@))),
        ("end_key"@, JsonView::Str(hex_of(region.end@))),
    ];
    let two = members.drop_last();
    let one = two.drop_last();
    assert(members.last() == members[2] && two.last() == members[1] && one.last() == members[0]);
    a_value_is_read_as_what_it_is(members[0].1, Seq::empty(), Seq::empty(), region.id);
    hex_gives_back_the_bytes(region.start@);
    hex_gives_back_the_bytes(region.end@);
}

/// An entry is read as it stands: its id is the number that it gives and zero where it gives none,
/// and a bound is the text that it gives and no bound where it gives none.
pub proof fn what_an_entry_leaves_out(entry: JsonView, name: Seq<char>, id: u64, text: Seq<char>)
    ensures
        entry.get("id"@) == Some(JsonView::Number(decimal(id as nat))) ==> id_in(entry) == id,
        id_in(entry) == id && id > 0 ==> entry.get("id"@) == Some(
            JsonView::Number(decimal(id as nat)),
        ),
        entry.get(name) == Some(JsonView::Str(text)) ==> bound_in(entry, name) == text,
        bound_in(entry, name) == text && text.len() > 0 ==> entry.get(name) == Some(
            JsonView::Str(text),
        ),
        !(entry.get(name) is Some && entry.get(name)->0 is Str) ==> bound_in(entry, name).len() == 0,
{
    if let Some(found) = entry.get("id"@) {
        a_value_is_read_as_what_it_is(found, Seq::empty(), Seq::empty(), id);
    }
    if let Some(found) = entry.get(name) {
        a_value_is_read_as_what_it_is(found, text, Seq::empty(), id);
    }
}

/// What a report counts is the number that it gives under that name, and what it lists are the items
/// of the array that it gives.
pub proof fn a_report_is_read_as_it_stands(
    report: JsonView,
    n: u64,
    name: Seq<char>,
    items: Seq<JsonView>,
)
    ensures
        counted(report) == Some(n) <==> report.get("count"@) == Some(
            JsonView::Number(decimal(n as nat)),
        ),
        listed(report, name) == Some(items) <==> report.get(name) == Some(JsonView::Array(items)),
{
    if let Some(found) = report.get("count"@) {
        a_value_is_read_as_what_it_is(found, Seq::empty(), Seq::empty(), n);
    }
    if let Some(found) = report.get(name) {
        a_value_is_read_as_what_it_is(found, Seq::empty(), items, n);
    }
}

/// A store counts exactly where it is up by its name and gives its id as a number.
pub proof fn a_store_counts_exactly_where_it_is_up(entry: JsonView, id: u64)
    ensures
        up_in(entry) == Some(id) <==> {
            &&& entry.get("store"@) is Some
            &&& entry.get("store"@)->0.get("state_name"@) == Some(JsonView::Str("Up"@))
            &&& entry.get("store"@)->0.get("id"@) == Some(JsonView::Number(decimal(id as nat)))
        },
{
    if let Some(store) = entry.get("store"@) {
        if let Some(found) = store.get("id"@) {
            a_value_is_read_as_what_it_is(found, Seq::empty(), Seq::empty(), id);
        }
        if let Some(state) = store.get("state_name"@) {
            a_value_is_read_as_what_it_is(state, "Up"@, Seq::empty(), id);
        }
    }
}

/// Stores are counted one by one: those of two stretches of a report are those of the first and then
/// those of the second.
pub proof fn stores_are_counted_one_by_one(a: Seq<JsonView>, b: Seq<JsonView>, entry: JsonView)
    ensures
        up_among(a + b) == up_among(a) + up_among(b),
        up_among(seq![entry]) == match up_in(entry) {
            Some(id) => seq![id],
            None => Seq::empty(),
        },
    decreases b.len(),
{
    assert(seq![entry].drop_last() =~= Seq::<JsonView>::empty());
    assert(up_among(Seq::<JsonView>::empty()) =~= Seq::<u64>::empty());
    if b.len() == 0 {
        assert(a + b =~= a);
    } else {
        let init = b.drop_last();
        stores_are_counted_one_by_one(a, init, entry);
        assert((a + b).drop_last() =~= a + init);
        assert((a + b).last() == b.last());
    }
    assert(up_among(a + b) =~= up_among(a) + up_among(b));
}

proof fn lemma_names()
    ensures
        "id"@.len() == 2,
        "start_key"@.len() == 9 && "start_key"@[0] == 's',
        "end_key"@.len() == 7,
        "name"@.len() == 4 && "name"@[0] == 'n',
        "region_id"@.len() == 9 && "region_id"@[0] == 'r',
        "policy"@.len() == 6,
        "keys"@.len() == 4 && "keys"@[0] == 'k',
{
    reveal_strlit("id");
    reveal_strlit("start_key");
    reveal_strlit("end_key");
    reveal_strlit("name");
    reveal_strlit("region_id");
    reveal_strlit("policy");
    reveal_strlit("keys");
}

/// A request to split names the region and one key, which is the raw key as the bounds of regions
/// are reported: read as such a bound, it parts the keys below the raw key from the others.
pub proof fn a_split_goes_where_it_is_asked(region_id: u64, at: Seq<u8>, left: RegionInfo, key: Seq<u8>)
    ensures
        ({
            let request = split_of(region_id, at);
            let keys = request.get("keys"@)->0.as_array()->0;
            let bound = keys[0].as_str()->0;
            &&& request.get("name"@) == Some(JsonView::Str("split-region"@))
            &&& request.get("policy"@) == Some(JsonView::Str("usekey"@))
            &&& request.get("region_id"@) is Some && request.get("region_id"@)->0.as_u64() == Some(
                region_id,
            )
            &&& request.get("keys"@) is Some && request.get("keys"@)->0.as_array() is Some
            &&& keys.len() == 1 && keys[0].as_str() is Some
            &&& is_hex(bound)
            &&& left.start@.len() == 0 && left.end@ == hex_bytes(bound) ==> (left.holds(
                encoded_key(key),
            ) <==> bytes_lt(key, at))
        }),
{
    lemma_names();
    reveal_with_fuel(member, 5);
    let members = split_of(region_id, at)->Object_0;
    let three = members.drop_last();
    let two = three.drop_last();
    let one = two.drop_last();
    assert(members.last() == members[3] && three.last() == members[2] && two.last() == members[1]
        && one.last() == members[0]);
    a_value_is_read_as_what_it_is(members[1].1, Seq::empty(), Seq::empty(), region_id);
    hex_gives_back_the_bytes(encoded_key(at));
    a_region_holds_what_is_between_its_bounds(left, at, at, key);
}

/// The request to split a region exactly at a raw key, and not where the cluster would choose.
pub fn split_request(region_id: u64, at: &[u8]) -> (r: Json)
    ensures
        r@ == split_of(region_id, at@),
{
    let hex: Json = Json::Str(bytes_to_hex(encode_key(at).as_slice()));
    let mut keys: Vec<Json> = Vec::new();
    keys.push(hex);
    proof {
        assert(json_views(keys@) =~= seq![JsonView::Str(hex_of(encoded_key(at@)))]);
    }
    let keys: Json = Json::Array(keys);
    let id: Json = Json::Number(decimal_text(region_id as u128));
    let name: Json = Json::Str("split-region".to_owned());
    let policy: Json = Json::Str("usekey".to_owned());
    let mut members: Vec<(String, Json)> = Vec::new();
    members.push(("name".to_owned(), name));
    members.push(("region_id".to_owned(), id));
    members.push(("policy".to_owned(), policy));
    members.push(("keys".to_owned(), keys));
    proof {
        assert(member_views(members@) =~= split_of(region_id, at@)->Object_0);
    }
    Json::Object(members)
}

} // verus!
