//! Path resolution over a JSON value tree: every field of the tree is an
//! endpoint, arrays are addressed by the `name` of their items, the last
//! segment may list several fields separated by commas, and `*` or `all`
//! expands over every item of an array.

use vstd::prelude::*;

use crate::json::{clone_json, distinct_keys, entries_model, lemma_container_view, opt_model, values_model, Json, JsonValue};
use crate::text::{
    chars_equal, chars_of, contains_char, lemma_split_on_nonempty, pieces_of, split_on, string_from,
    trim, trimmed,
};

verus! {

broadcast use vstd::std_specs::vec::group_vec_axioms;

// ---------------------------------------------------------------------------
// Lookup in the model.
// ---------------------------------------------------------------------------

/// Position of the first entry with key `k`.
pub open spec fn key_index(m: Seq<(Seq<char>, Json)>, k: Seq<char>) -> Option<int>
    decreases m.len(),
{
    if m.len() == 0 {
        None
    } else if m[0].0 == k {
        Some(0)
    } else {
        match key_index(m.skip(1), k) {
            Some(i) => Some(i + 1),
            None => None,
        }
    }
}

/// The value of the first entry with key `k`.
pub open spec fn obj_get(m: Seq<(Seq<char>, Json)>, k: Seq<char>) -> Option<Json> {
    match key_index(m, k) {
        Some(i) => Some(m[i].1),
        None => None,
    }
}

/// The `name` of an array item: its `name` field, when that is a string.
pub open spec fn item_name(v: Json) -> Option<Seq<char>> {
    match v {
        Json::Object(m) => match obj_get(m, "name"@) {
            Some(Json::Str(s)) => Some(s),
            _ => None,
        },
        _ => None,
    }
}

/// The first item whose name is `k`.
pub open spec fn find_named(items: Seq<Json>, k: Seq<char>) -> Option<Json>
    decreases items.len(),
{
    if items.len() == 0 {
        None
    } else if item_name(items[0]) == Some(k) {
        Some(items[0])
    } else {
        find_named(items.skip(1), k)
    }
}

/// One step down the tree: a field of an object, or the item of an array
/// with that name.
pub open spec fn child(v: Json, k: Seq<char>) -> Option<Json> {
    match v {
        Json::Object(m) => obj_get(m, k),
        Json::Array(items) => find_named(items, k),
        _ => None,
    }
}

/// The value at the end of a path of segments.
pub open spec fn navigate_spec(v: Json, segs: Seq<Seq<char>>) -> Option<Json>
    decreases segs.len(),
{
    if segs.len() == 0 {
        Some(v)
    } else {
        match child(v, segs[0]) {
            Some(c) => navigate_spec(c, segs.skip(1)),
            None => None,
        }
    }
}

proof fn lemma_key_index_found(m: Seq<(Seq<char>, Json)>, k: Seq<char>, i: int)
    requires
        0 <= i < m.len(),
        forall|j: int| 0 <= j < i ==> #[trigger] m[j].0 != k,
        m[i].0 == k,
    ensures
        key_index(m, k) == Some(i),
    decreases i,
{
    if i > 0 {
        assert forall|j: int| 0 <= j < i - 1 implies #[trigger] m.skip(1)[j].0 != k by {
            assert(m.skip(1)[j] == m[j + 1]);
        }
        lemma_key_index_found(m.skip(1), k, i - 1);
    }
}

proof fn lemma_key_index_absent(m: Seq<(Seq<char>, Json)>, k: Seq<char>)
    requires
        forall|j: int| 0 <= j < m.len() ==> #[trigger] m[j].0 != k,
    ensures
        key_index(m, k) is None,
    decreases m.len(),
{
    if m.len() > 0 {
        assert forall|j: int| 0 <= j < m.len() - 1 implies #[trigger] m.skip(1)[j].0 != k by {
            assert(m.skip(1)[j] == m[j + 1]);
        }
        lemma_key_index_absent(m.skip(1), k);
    }
}

proof fn lemma_find_named_found(items: Seq<Json>, k: Seq<char>, i: int)
    requires
        0 <= i < items.len(),
        forall|j: int| 0 <= j < i ==> item_name(#[trigger] items[j]) != Some(k),
        item_name(items[i]) == Some(k),
    ensures
        find_named(items, k) == Some(items[i]),
    decreases i,
{
    if i > 0 {
        assert forall|j: int| 0 <= j < i - 1 implies item_name(#[trigger] items.skip(1)[j]) != Some(
            k,
        ) by {
            assert(items.skip(1)[j] == items[j + 1]);
        }
        lemma_find_named_found(items.skip(1), k, i - 1);
    }
}

proof fn lemma_find_named_absent(items: Seq<Json>, k: Seq<char>)
    requires
        forall|j: int| 0 <= j < items.len() ==> item_name(#[trigger] items[j]) != Some(k),
    ensures
        find_named(items, k) is None,
    decreases items.len(),
{
    if items.len() > 0 {
        assert forall|j: int| 0 <= j < items.len() - 1 implies item_name(
            #[trigger] items.skip(1)[j],
        ) != Some(k) by {
            assert(items.skip(1)[j] == items[j + 1]);
        }
        lemma_find_named_absent(items.skip(1), k);
    }
}

// ---------------------------------------------------------------------------
// Lookup on values.
// ---------------------------------------------------------------------------

/// Position of the first entry of `m` with key `k`.
fn key_position(m: &Vec<(String, JsonValue)>, k: &String) -> (r: Option<usize>)
    ensures
        r matches Some(i) ==> i < m.len() && key_index(entries_model(m@), k@) == Some(i as int),
        r is None ==> key_index(entries_model(m@), k@) is None,
{
    let ghost em = entries_model(m@);
    let mut i: usize = 0;
    while i < m.len()
        invariant
            i <= m.len(),
            em == entries_model(m@),
            forall|j: int| 0 <= j < i ==> #[trigger] em[j].0 != k@,
        decreases m.len() - i,
    {
        if m[i].0 == *k {
            proof {
                lemma_key_index_found(em, k@, i as int);
            }
            return Some(i);
        }
        assert(em[i as int].0 == m@[i as int].0@);
        i = i + 1;
    }
    proof {
        lemma_key_index_absent(em, k@);
    }
    None
}

/// The name of an array item.
fn name_of(v: &JsonValue) -> (r: Option<String>)
    ensures
        r matches Some(s) ==> item_name(v@) == Some(s@),
        r is None ==> item_name(v@) is None,
{
    proof {
        lemma_container_view(v);
    }
    match v {
        JsonValue::Object(m) => {
            let key = "name".to_owned();
            match key_position(m, &key) {
                Some(i) => {
                    let ghost em = entries_model(m@);
                    assert(em[i as int].1 == m@[i as int].1@);
                    proof {
                        lemma_container_view(&m@[i as int].1);
                    }
                    match &m[i].1 {
                        JsonValue::String(s) => Some(s.clone()),
                        _ => None,
                    }
                },
                None => None,
            }
        },
        _ => None,
    }
}

/// Position of the first item of `items` named `k`.
fn named_position(items: &Vec<JsonValue>, k: &String) -> (r: Option<usize>)
    ensures
        r matches Some(i) ==> i < items.len() && find_named(values_model(items@), k@) == Some(
            items@[i as int]@,
        ),
        r is None ==> find_named(values_model(items@), k@) is None,
{
    let ghost vm = values_model(items@);
    let mut i: usize = 0;
    while i < items.len()
        invariant
            i <= items.len(),
            vm == values_model(items@),
            forall|j: int| 0 <= j < i ==> item_name(#[trigger] vm[j]) != Some(k@),
        decreases items.len() - i,
    {
        let name = name_of(&items[i]);
        assert(vm[i as int] == items@[i as int]@);
        match name {
            Some(n) => {
                if n == *k {
                    proof {
                        lemma_find_named_found(vm, k@, i as int);
                    }
                    return Some(i);
                }
            },
            None => {},
        }
        i = i + 1;
    }
    proof {
        lemma_find_named_absent(vm, k@);
    }
    None
}

/// One step down the tree from `v` along `k`.
fn child_of<'a>(v: &'a JsonValue, k: &String) -> (r: Option<&'a JsonValue>)
    ensures
        r matches Some(c) ==> child(v@, k@) == Some(c@),
        r is None ==> child(v@, k@) is None,
{
    proof {
        lemma_container_view(v);
    }
    match v {
        JsonValue::Object(m) => match key_position(m, k) {
            Some(i) => {
                assert(entries_model(m@)[i as int].1 == m@[i as int].1@);
                Some(&m[i].1)
            },
            None => None,
        },
        JsonValue::Array(items) => match named_position(items, k) {
            Some(i) => Some(&items[i]),
            None => None,
        },
        _ => None,
    }
}

/// The segments as character sequences.
pub open spec fn segs_view(segments: Seq<&str>) -> Seq<Seq<char>> {
    Seq::new(segments.len(), |i: int| segments[i]@)
}

/// The segments as owned strings.
fn owned_segments(segments: &[&str]) -> (r: Vec<String>)
    ensures
        r.len() == segments@.len(),
        forall|i: int| 0 <= i < r.len() ==> #[trigger] r@[i]@ == segments@[i]@,
{
    let mut r: Vec<String> = Vec::new();
    let mut i: usize = 0;
    while i < segments.len()
        invariant
            i <= segments@.len(),
            r.len() == i,
            forall|j: int| 0 <= j < i ==> #[trigger] r@[j]@ == segments@[j]@,
        decreases segments@.len() - i,
    {
        r.push(segments[i].to_owned());
        i = i + 1;
    }
    r
}

pub open spec fn strings_view(v: Seq<String>) -> Seq<Seq<char>> {
    Seq::new(v.len(), |i: int| v[i]@)
}

/// The raw value at the end of the path `segments`: object fields by key,
/// array items by name.
pub fn navigate(value: &JsonValue, segments: &[&str]) -> (r: Option<JsonValue>)
    ensures
        opt_model(r) == navigate_spec(value@, segs_view(segments@)),
        distinct_keys(value@) ==> (r matches Some(x) ==> distinct_keys(x@)),
{
    proof {
        if distinct_keys(value@) {
            lemma_navigate_distinct(value@, segs_view(segments@));
        }
    }
    let segs = owned_segments(segments);
    let ghost sv = segs_view(segments@);
    assert(strings_view(segs@) =~= sv);
    let mut cur: &JsonValue = value;
    let mut i: usize = 0;
    assert(sv.skip(0) =~= sv);
    while i < segs.len()
        invariant
            i <= segs.len(),
            sv == strings_view(segs@),
            sv == segs_view(segments@),
            navigate_spec(value@, sv) == navigate_spec(cur@, sv.skip(i as int)),
        decreases segs.len() - i,
    {
        assert(sv.skip(i as int)[0] == segs@[i as int]@);
        assert(sv.skip(i as int).skip(1) =~= sv.skip(i + 1));
        match child_of(cur, &segs[i]) {
            Some(c) => {
                cur = c;
            },
            None => {
                return None;
            },
        }
        i = i + 1;
    }
    Some(clone_json(cur))
}

// ---------------------------------------------------------------------------
// Request resolution.
// ---------------------------------------------------------------------------

/// `*` and `all` stand for every item of an array.
pub open spec fn is_wildcard_spec(s: Seq<char>) -> bool {
    s == "*"@ || s == "all"@
}

/// Returns `true` for the wildcard tokens `*` and `all`.
pub fn is_wildcard(s: &str) -> (b: bool)
    ensures
        b == is_wildcard_spec(s@),
{
    let v = chars_of(s);
    chars_equal(&v, &chars_of("*")) || chars_equal(&v, &chars_of("all"))
}

/// The field names of a comma-separated segment: the pieces between commas,
/// trimmed, without the empty ones, in the order given.
pub open spec fn field_list(pieces: Seq<Seq<char>>) -> Seq<Seq<char>>
    decreases pieces.len(),
{
    if pieces.len() == 0 {
        Seq::empty()
    } else {
        let prev = field_list(pieces.drop_last());
        let t = trim(pieces.last());
        if t.len() > 0 {
            prev.push(t)
        } else {
            prev
        }
    }
}

pub open spec fn comma_fields(raw: Seq<char>) -> Seq<Seq<char>> {
    field_list(split_on(raw, ','))
}

/// Insertion into an ordered object: a present key keeps its place and takes
/// the new value, a new key goes last.
pub open spec fn obj_insert(m: Seq<(Seq<char>, Json)>, k: Seq<char>, v: Json) -> Seq<
    (Seq<char>, Json),
> {
    match key_index(m, k) {
        Some(i) => m.update(i, (k, v)),
        None => m.push((k, v)),
    }
}

/// The entries that listing `fields` of `v` gives: each field that exists,
/// under its own name, in the order listed.
pub open spec fn collect_fields(v: Json, fields: Seq<Seq<char>>) -> Seq<(Seq<char>, Json)>
    decreases fields.len(),
{
    if fields.len() == 0 {
        Seq::empty()
    } else {
        let prev = collect_fields(v, fields.drop_last());
        match child(v, fields.last()) {
            Some(c) => obj_insert(prev, fields.last(), c),
            None => prev,
        }
    }
}

/// The answer to a comma-separated segment: an object of the listed fields
/// that exist, or nothing when none does.
pub open spec fn comma_spec(v: Json, raw: Seq<char>) -> Option<Json> {
    let e = collect_fields(v, comma_fields(raw));
    if e.len() == 0 {
        None
    } else {
        Some(Json::Object(e))
    }
}

/// The answer to a request path.
///
/// - no segment left: the value itself;
/// - a last segment with a comma: the listed fields ([`comma_spec`]);
/// - a wildcard on an array: the items (for a last segment) or what the rest
///   of the path gives on each item, when that is not empty;
/// - otherwise one step down: a last segment names an object field, answered
///   as `{field: value}`, or an array item, answered as the item itself.
pub open spec fn resolve_spec(v: Json, segs: Seq<Seq<char>>) -> Option<Json>
    decreases segs.len(), 0nat,
{
    if segs.len() == 0 {
        Some(v)
    } else {
        let cur = segs[0];
        let rest = segs.skip(1);
        let is_last = rest.len() == 0;
        if is_last && cur.contains(',') {
            comma_spec(v, cur)
        } else if is_wildcard_spec(cur) {
            match v {
                Json::Array(items) => {
                    let results = if is_last {
                        items
                    } else {
                        wildcard_collect(items, rest)
                    };
                    if results.len() == 0 {
                        None
                    } else {
                        Some(Json::Array(results))
                    }
                },
                _ => None,
            }
        } else {
            match v {
                Json::Object(m) => match obj_get(m, cur) {
                    Some(c) => if is_last {
                        Some(Json::Object(seq![(cur, c)]))
                    } else {
                        resolve_spec(c, rest)
                    },
                    None => None,
                },
                Json::Array(items) => match find_named(items, cur) {
                    Some(c) => if is_last {
                        Some(c)
                    } else {
                        resolve_spec(c, rest)
                    },
                    None => None,
                },
                _ => None,
            }
        }
    }
}

/// What the rest of a path gives on each item, skipping the items where it
/// gives nothing.
pub open spec fn wildcard_collect(items: Seq<Json>, rest: Seq<Seq<char>>) -> Seq<Json>
    decreases rest.len(), items.len(),
{
    if items.len() == 0 {
        Seq::empty()
    } else {
        let prev = wildcard_collect(items.drop_last(), rest);
        match resolve_spec(items.last(), rest) {
            Some(r) => prev.push(r),
            None => prev,
        }
    }
}

/// Inserts `(k, v)` into the ordered entries `m`.
fn entries_insert(m: &mut Vec<(String, JsonValue)>, k: String, v: JsonValue)
    ensures
        entries_model(final(m)@) == obj_insert(entries_model(old(m)@), k@, v@),
{
    let ghost old_m = entries_model(m@);
    match key_position(m, &k) {
        Some(i) => {
            m.set(i, (k, v));
            assert(entries_model(m@) =~= old_m.update(i as int, (k@, v@)));
        },
        None => {
            m.push((k, v));
            assert(entries_model(m@) =~= old_m.push((k@, v@)));
        },
    }
}

/// Extracts the comma-separated fields `raw` of `value`.
#[verifier::loop_isolation(false)]
pub fn resolve_comma_fields(value: &JsonValue, raw: &str) -> (r: Option<JsonValue>)
    ensures
        opt_model(r) == comma_spec(value@, raw@),
        distinct_keys(value@) ==> (r matches Some(x) ==> distinct_keys(x@)),
{
    proof {
        if distinct_keys(value@) {
            lemma_collect_distinct(value@, comma_fields(raw@));
        }
    }
    let v = chars_of(raw);
    let pieces = pieces_of(&v, ',');
    let ghost pm = split_on(v@, ',');
    let mut entries: Vec<(String, JsonValue)> = Vec::new();
    let mut k: usize = 0;
    assert(pm.take(0) =~= Seq::<Seq<char>>::empty());
    assert(entries_model(entries@) =~= Seq::<(Seq<char>, Json)>::empty());
    while k < pieces.len()
        invariant
            k <= pieces.len(),
            entries_model(entries@) == collect_fields(value@, field_list(pm.take(k as int))),
        decreases pieces.len() - k,
    {
        let t = trimmed(&pieces[k]);
        assert(pm.take(k + 1).drop_last() =~= pm.take(k as int));
        assert(pm.take(k + 1).last() == pieces@[k as int]@);
        if t.len() > 0 {
            let field = string_from(&t, 0, t.len());
            assert(t@.subrange(0, t@.len() as int) =~= t@);
            let ghost fl = field_list(pm.take(k as int));
            assert(fl.push(t@).drop_last() =~= fl);
            match child_of(value, &field) {
                Some(c) => {
                    let cv = clone_json(c);
                    entries_insert(&mut entries, field, cv);
                },
                None => {},
            }
        }
        k = k + 1;
    }
    assert(pm.take(pieces.len() as int) =~= pm);
    if entries.len() == 0 {
        None
    } else {
        let r = JsonValue::Object(entries);
        proof {
            lemma_container_view(&r);
        }
        Some(r)
    }
}

/// Fully resolves a request path against `value` (see [`resolve_spec`]).
pub fn resolve_request(value: &JsonValue, segments: &[&str]) -> (r: Option<JsonValue>)
    ensures
        opt_model(r) == resolve_spec(value@, segs_view(segments@)),
        distinct_keys(value@) ==> (r matches Some(x) ==> distinct_keys(x@)),
{
    proof {
        if distinct_keys(value@) {
            lemma_resolve_distinct(value@, segs_view(segments@));
        }
    }
    let segs = owned_segments(segments);
    assert(strings_view(segs@) =~= segs_view(segments@));
    assert(strings_view(segs@).skip(0) =~= strings_view(segs@));
    resolve_at(value, &segs, 0)
}

#[verifier::loop_isolation(false)]
fn resolve_at(value: &JsonValue, segs: &Vec<String>, i: usize) -> (r: Option<JsonValue>)
    requires
        i <= segs.len(),
    ensures
        opt_model(r) == resolve_spec(value@, strings_view(segs@).skip(i as int)),
    decreases segs.len() - i,
{
    let ghost sv = strings_view(segs@).skip(i as int);
    if i == segs.len() {
        return Some(clone_json(value));
    }
    let cur = &segs[i];
    let is_last = i + 1 == segs.len();
    let ghost rest = sv.skip(1);
    assert(sv[0] == cur@);
    assert(rest =~= strings_view(segs@).skip(i + 1));
    let cur_chars = chars_of(cur.as_str());
    if is_last && contains_char(&cur_chars, ',') {
        return resolve_comma_fields(value, cur.as_str());
    }
    proof {
        lemma_container_view(value);
    }
    if is_wildcard(cur.as_str()) {
        match value {
            JsonValue::Array(items) => {
                let ghost vm = values_model(items@);
                let mut results: Vec<JsonValue> = Vec::new();
                let mut k: usize = 0;
                assert(vm.take(0) =~= Seq::<Json>::empty());
                while k < items.len()
                    invariant
                        k <= items.len(),
                        values_model(results@) == (if is_last {
                            vm.take(k as int)
                        } else {
                            wildcard_collect(vm.take(k as int), rest)
                        }),
                    decreases items.len() - k,
                {
                    assert(vm.take(k + 1).drop_last() =~= vm.take(k as int));
                    assert(vm.take(k + 1).last() == items@[k as int]@);
                    let ghost before = values_model(results@);
                    if is_last {
                        let c = clone_json(&items[k]);
                        results.push(c);
                        assert(values_model(results@) =~= before.push(items@[k as int]@));
                    } else {
                        match resolve_at(&items[k], segs, i + 1) {
                            Some(x) => {
                                results.push(x);
                                assert(values_model(results@) =~= before.push(x@));
                            },
                            None => {},
                        }
                    }
                    k = k + 1;
                }
                assert(vm.take(items.len() as int) =~= vm);
                if results.len() == 0 {
                    None
                } else {
                    let r = JsonValue::Array(results);
                    proof {
                        lemma_container_view(&r);
                    }
                    Some(r)
                }
            },
            _ => None,
        }
    } else {
        match value {
            JsonValue::Object(m) => match key_position(m, cur) {
                Some(idx) => {
                    let c = &m[idx].1;
                    assert(entries_model(m@)[idx as int].1 == c@);
                    if is_last {
                        let cv = clone_json(c);
                        let r = JsonValue::Object(vec![(cur.clone(), cv)]);
                        proof {
                            lemma_container_view(&r);
                            assert(entries_model(r->Object_0@) =~= seq![(cur@, c@)]);
                        }
                        Some(r)
                    } else {
                        resolve_at(c, segs, i + 1)
                    }
                },
                None => None,
            },
            JsonValue::Array(items) => match named_position(items, cur) {
                Some(idx) => {
                    let c = &items[idx];
                    if is_last {
                        Some(clone_json(c))
                    } else {
                        resolve_at(c, segs, i + 1)
                    }
                },
                None => None,
            },
            _ => None,
        }
    }
}

// ---------------------------------------------------------------------------
// Endpoint enumeration.
// ---------------------------------------------------------------------------

/// `prefix/key`.
pub open spec fn join_path(prefix: Seq<char>, key: Seq<char>) -> Seq<char> {
    prefix + seq!['/'] + key
}

/// The paths of the fields of a named item, other than `name` itself.
pub open spec fn item_field_endpoints(fields: Seq<(Seq<char>, Json)>, item_path: Seq<char>) -> Seq<
    Seq<char>,
>
    decreases fields.len(),
{
    if fields.len() == 0 {
        Seq::empty()
    } else {
        let prev = item_field_endpoints(fields.drop_last(), item_path);
        let k = fields.last().0;
        if k == "name"@ {
            prev
        } else {
            prev.push(join_path(item_path, k))
        }
    }
}

/// The paths of an array item: its own path by name, then its fields.
/// Unnamed items have none.
pub open spec fn item_endpoints(item: Json, path: Seq<char>) -> Seq<Seq<char>> {
    match item_name(item) {
        None => Seq::empty(),
        Some(n) => {
            let ip = join_path(path, n);
            seq![ip] + match item {
                Json::Object(f) => item_field_endpoints(f, ip),
                _ => Seq::empty(),
            }
        },
    }
}

/// The paths of the items of an array at `path`.
pub open spec fn items_endpoints(items: Seq<Json>, path: Seq<char>) -> Seq<Seq<char>>
    decreases items.len(),
{
    if items.len() == 0 {
        Seq::empty()
    } else {
        items_endpoints(items.drop_last(), path) + item_endpoints(items.last(), path)
    }
}

/// Every addressable path of `v` below `prefix`, in order: each field, then
/// what lies below it (nested objects recursively, array items by name with
/// their fields).
pub open spec fn endpoints(v: Json, prefix: Seq<char>) -> Seq<Seq<char>>
    decreases v, 0nat,
{
    match v {
        Json::Object(m) => entries_endpoints(m, prefix, m.len()),
        _ => Seq::empty(),
    }
}

/// The paths of the first `n` entries of an object at `prefix`.
pub open spec fn entries_endpoints(m: Seq<(Seq<char>, Json)>, prefix: Seq<char>, n: nat) -> Seq<
    Seq<char>,
>
    decreases m, n,
{
    if n == 0 || n > m.len() {
        Seq::empty()
    } else {
        let prev = entries_endpoints(m, prefix, (n - 1) as nat);
        let path = join_path(prefix, m[n - 1].0);
        let c = m[n - 1].1;
        prev + seq![path] + match c {
            Json::Object(_) => endpoints(c, path),
            Json::Array(items) => items_endpoints(items, path),
            _ => Seq::empty(),
        }
    }
}

/// `prefix/key` as a string.
fn join(prefix: &String, key: &String) -> (r: String)
    ensures
        r@ == join_path(prefix@, key@),
{
    let mut r = prefix.clone();
    r.push('/');
    let k = chars_of(key.as_str());
    let mut i: usize = 0;
    while i < k.len()
        invariant
            i <= k.len(),
            k@ == key@,
            r@ == prefix@ + seq!['/'] + k@.take(i as int),
        decreases k.len() - i,
    {
        r.push(k[i]);
        assert(k@.take(i + 1) =~= k@.take(i as int).push(k@[i as int]));
        i = i + 1;
    }
    assert(k@.take(k@.len() as int) =~= k@);
    r
}

/// Appends the paths of the fields of a named item.
#[verifier::loop_isolation(false)]
fn push_item_fields(fields: &Vec<(String, JsonValue)>, item_path: &String, out: &mut Vec<String>)
    ensures
        strings_view(final(out)@) == strings_view(old(out)@) + item_field_endpoints(
            entries_model(fields@),
            item_path@,
        ),
{
    let ghost em = entries_model(fields@);
    let ghost start = strings_view(out@);
    let name_key = "name".to_owned();
    let mut i: usize = 0;
    assert(em.take(0) =~= Seq::<(Seq<char>, Json)>::empty());
    assert(strings_view(out@) =~= start + item_field_endpoints(em.take(0), item_path@));
    while i < fields.len()
        invariant
            i <= fields.len(),
            strings_view(out@) == start + item_field_endpoints(em.take(i as int), item_path@),
        decreases fields.len() - i,
    {
        assert(em.take(i + 1).drop_last() =~= em.take(i as int));
        assert(em.take(i + 1).last().0 == fields@[i as int].0@);
        let ghost before = strings_view(out@);
        if fields[i].0 != name_key {
            let p = join(item_path, &fields[i].0);
            out.push(p);
            assert(strings_view(out@) =~= before.push(join_path(item_path@, fields@[i as int].0@)));
        }
        i = i + 1;
    }
    assert(em.take(fields.len() as int) =~= em);
}

/// Appends the paths of the items of an array at `path`.
#[verifier::loop_isolation(false)]
fn push_items(items: &Vec<JsonValue>, path: &String, out: &mut Vec<String>)
    ensures
        strings_view(final(out)@) == strings_view(old(out)@) + items_endpoints(
            values_model(items@),
            path@,
        ),
{
    let ghost vm = values_model(items@);
    let ghost start = strings_view(out@);
    let mut i: usize = 0;
    assert(vm.take(0) =~= Seq::<Json>::empty());
    assert(strings_view(out@) =~= start + items_endpoints(vm.take(0), path@));
    while i < items.len()
        invariant
            i <= items.len(),
            strings_view(out@) == start + items_endpoints(vm.take(i as int), path@),
        decreases items.len() - i,
    {
        assert(vm.take(i + 1).drop_last() =~= vm.take(i as int));
        assert(vm.take(i + 1).last() == items@[i as int]@);
        let ghost before = strings_view(out@);
        let item = &items[i];
        proof {
            lemma_container_view(item);
        }
        match name_of(item) {
            Some(n) => {
                let ip = join(path, &n);
                out.push(ip.clone());
                assert(strings_view(out@) =~= before.push(ip@));
                match item {
                    JsonValue::Object(fields) => {
                        push_item_fields(fields, &ip, out);
                        assert(strings_view(out@) =~= before + item_endpoints(items@[i as int]@, path@));
                    },
                    _ => {
                        assert(strings_view(out@) =~= before + item_endpoints(items@[i as int]@, path@));
                    },
                }
            },
            None => {
                assert(strings_view(out@) =~= before + item_endpoints(items@[i as int]@, path@));
            },
        }
        i = i + 1;
    }
    assert(vm.take(items.len() as int) =~= vm);
}

/// Appends every addressable path of `value` below `prefix` to `out`.
#[verifier::loop_isolation(false)]
pub fn enumerate_endpoints(value: &JsonValue, prefix: &str, out: &mut Vec<String>)
    ensures
        strings_view(final(out)@) == strings_view(old(out)@) + endpoints(value@, prefix@),
    decreases value,
{
    proof {
        lemma_container_view(value);
    }
    let ghost start = strings_view(out@);
    match value {
        JsonValue::Object(m) => {
            let ghost em = entries_model(m@);
            let pre = prefix.to_owned();
            let mut i: usize = 0;
            assert(strings_view(out@) =~= start + entries_endpoints(em, prefix@, 0));
            while i < m.len()
                invariant
                    i <= m.len(),
                    strings_view(out@) == start + entries_endpoints(em, prefix@, i as nat),
                decreases m.len() - i,
            {
                let ghost before = strings_view(out@);
                let path = join(&pre, &m[i].0);
                out.push(path.clone());
                assert(strings_view(out@) =~= before.push(path@));
                let c = &m[i].1;
                assert(em[i as int].1 == c@);
                proof {
                    lemma_container_view(c);
                }
                assert(decreases_to!(*value => (*value)->Object_0));
                assert(decreases_to!(*m => m[i as int]));
                assert(decreases_to!(m[i as int] => m[i as int].1));
                match c {
                    JsonValue::Object(_) => {
                        enumerate_endpoints(c, path.as_str(), out);
                    },
                    JsonValue::Array(items) => {
                        push_items(items, &path, out);
                    },
                    _ => {},
                }
                assert(strings_view(out@) =~= start + entries_endpoints(em, prefix@, (i + 1) as nat));
                i = i + 1;
            }
            assert(strings_view(out@) =~= start + endpoints(value@, prefix@));
        },
        _ => {
            assert(strings_view(out@) =~= start + endpoints(value@, prefix@));
        },
    }
}

/// The segments of a request path: the pieces between `/`, without empty ones.
pub open spec fn path_segments(pieces: Seq<Seq<char>>) -> Seq<Seq<char>>
    decreases pieces.len(),
{
    if pieces.len() == 0 {
        Seq::empty()
    } else {
        let prev = path_segments(pieces.drop_last());
        if pieces.last().len() > 0 {
            prev.push(pieces.last())
        } else {
            prev
        }
    }
}

/// Splits a request path into its non-empty segments.
pub fn split_path(path: &str) -> (segs: Vec<String>)
    ensures
        strings_view(segs@) == path_segments(split_on(path@, '/')),
{
    let v = chars_of(path);
    let pieces = pieces_of(&v, '/');
    let ghost pm = split_on(v@, '/');
    let mut segs: Vec<String> = Vec::new();
    let mut k: usize = 0;
    assert(pm.take(0) =~= Seq::<Seq<char>>::empty());
    assert(strings_view(segs@) =~= Seq::<Seq<char>>::empty());
    while k < pieces.len()
        invariant
            k <= pieces.len(),
            v@ == path@,
            pm == split_on(v@, '/'),
            pieces.len() == pm.len(),
            forall|j: int| 0 <= j < pieces.len() ==> #[trigger] pieces@[j]@ == pm[j],
            strings_view(segs@) == path_segments(pm.take(k as int)),
        decreases pieces.len() - k,
    {
        assert(pm.take(k + 1).drop_last() =~= pm.take(k as int));
        assert(pm.take(k + 1).last() == pieces@[k as int]@);
        let p = &pieces[k];
        if p.len() > 0 {
            let ghost before = strings_view(segs@);
            let s = string_from(p, 0, p.len());
            assert(p@.subrange(0, p@.len() as int) =~= p@);
            segs.push(s);
            assert(strings_view(segs@) =~= before.push(p@));
        }
        k = k + 1;
    }
    assert(pm.take(pieces.len() as int) =~= pm);
    segs
}

// ---------------------------------------------------------------------------
// Resolution keeps each key of an object once.
// ---------------------------------------------------------------------------

proof fn lemma_key_index_range(m: Seq<(Seq<char>, Json)>, k: Seq<char>)
    ensures
        key_index(m, k) matches Some(i) ==> 0 <= i < m.len() && m[i].0 == k,
        key_index(m, k) is None ==> forall|j: int| 0 <= j < m.len() ==> #[trigger] m[j].0 != k,
    decreases m.len(),
{
    if m.len() > 0 && m[0].0 != k {
        let t = m.skip(1);
        lemma_key_index_range(t, k);
        if let Some(i) = key_index(t, k) {
            assert(t[i] == m[i + 1]);
        } else {
            assert forall|j: int| 0 <= j < m.len() implies #[trigger] m[j].0 != k by {
                if j > 0 {
                    assert(t[j - 1] == m[j]);
                }
            }
        }
    }
}

/// The item that [`find_named`] gives is one of the items.
proof fn lemma_find_named_index(items: Seq<Json>, k: Seq<char>) -> (i: int)
    ensures
        find_named(items, k) matches Some(c) ==> 0 <= i < items.len() && items[i] == c,
    decreases items.len(),
{
    if items.len() == 0 || item_name(items[0]) == Some(k) {
        0
    } else {
        let t = items.skip(1);
        let j = lemma_find_named_index(t, k);
        if find_named(t, k) is Some {
            assert(t[j] == items[j + 1]);
        }
        j + 1
    }
}

proof fn lemma_child_distinct(v: Json, k: Seq<char>)
    requires
        distinct_keys(v),
    ensures
        child(v, k) matches Some(c) ==> distinct_keys(c),
{
    match v {
        Json::Object(m) => {
            lemma_key_index_range(m, k);
        },
        Json::Array(items) => {
            let i = lemma_find_named_index(items, k);
            if find_named(items, k) is Some {
                assert(distinct_keys(items[i]));
            }
        },
        _ => {},
    }
}

proof fn lemma_navigate_distinct(v: Json, segs: Seq<Seq<char>>)
    requires
        distinct_keys(v),
    ensures
        navigate_spec(v, segs) matches Some(r) ==> distinct_keys(r),
    decreases segs.len(),
{
    if segs.len() > 0 {
        lemma_child_distinct(v, segs[0]);
        if let Some(c) = child(v, segs[0]) {
            lemma_navigate_distinct(c, segs.skip(1));
        }
    }
}

proof fn lemma_obj_insert_distinct(m: Seq<(Seq<char>, Json)>, k: Seq<char>, c: Json)
    requires
        distinct_keys(Json::Object(m)),
        distinct_keys(c),
    ensures
        distinct_keys(Json::Object(obj_insert(m, k, c))),
{
    lemma_key_index_range(m, k);
    assert(Json::Object(m)->Object_0 == m);
    let r = obj_insert(m, k, c);
    match key_index(m, k) {
        Some(i) => {
            assert forall|a: int, b: int| 0 <= a < b < r.len() implies #[trigger] r[a].0
                != #[trigger] r[b].0 by {
                assert(m[a].0 != m[b].0);
            }
            assert forall|a: int| 0 <= a < r.len() implies distinct_keys(#[trigger] r[a].1) by {
                if a != i {
                    assert(distinct_keys(m[a].1));
                }
            }
        },
        None => {
            assert forall|a: int, b: int| 0 <= a < b < r.len() implies #[trigger] r[a].0
                != #[trigger] r[b].0 by {
                if b < m.len() {
                    assert(m[a].0 != m[b].0);
                } else {
                    assert(m[a].0 != k);
                }
            }
            assert forall|a: int| 0 <= a < r.len() implies distinct_keys(#[trigger] r[a].1) by {
                if a < m.len() {
                    assert(distinct_keys(m[a].1));
                }
            }
        },
    }
}

proof fn lemma_collect_distinct(v: Json, fields: Seq<Seq<char>>)
    requires
        distinct_keys(v),
    ensures
        distinct_keys(Json::Object(collect_fields(v, fields))),
    decreases fields.len(),
{
    if fields.len() > 0 {
        lemma_collect_distinct(v, fields.drop_last());
        lemma_child_distinct(v, fields.last());
        if let Some(c) = child(v, fields.last()) {
            lemma_obj_insert_distinct(collect_fields(v, fields.drop_last()), fields.last(), c);
        }
    }
}

proof fn lemma_resolve_distinct(v: Json, segs: Seq<Seq<char>>)
    requires
        distinct_keys(v),
    ensures
        resolve_spec(v, segs) matches Some(r) ==> distinct_keys(r),
    decreases segs.len(), 0nat,
{
    if segs.len() > 0 {
        let cur = segs[0];
        let rest = segs.skip(1);
        if rest.len() == 0 && cur.contains(',') {
            lemma_collect_distinct(v, comma_fields(cur));
        } else if is_wildcard_spec(cur) {
            if let Json::Array(items) = v {
                if rest.len() > 0 {
                    lemma_wildcard_collect_distinct(items, rest);
                    let results = wildcard_collect(items, rest);
                    assert(Json::Array(results)->Array_0 == results);
                } else {
                    assert(Json::Array(items)->Array_0 == items);
                }
            }
        } else {
            lemma_child_distinct(v, cur);
            match v {
                Json::Object(m) => {
                    if let Some(c) = obj_get(m, cur) {
                        if rest.len() > 0 {
                            lemma_resolve_distinct(c, rest);
                        } else {
                            assert(seq![(cur, c)][0].1 == c);
                        }
                    }
                },
                Json::Array(items) => {
                    if let Some(c) = find_named(items, cur) {
                        if rest.len() > 0 {
                            lemma_resolve_distinct(c, rest);
                        }
                    }
                },
                _ => {},
            }
        }
    }
}

proof fn lemma_wildcard_collect_distinct(items: Seq<Json>, rest: Seq<Seq<char>>)
    requires
        forall|i: int| 0 <= i < items.len() ==> distinct_keys(#[trigger] items[i]),
    ensures
        forall|j: int|
            0 <= j < wildcard_collect(items, rest).len() ==> distinct_keys(
                #[trigger] wildcard_collect(items, rest)[j],
            ),
    decreases rest.len(), items.len(),
{
    if items.len() > 0 {
        let init = items.drop_last();
        assert forall|i: int| 0 <= i < init.len() implies distinct_keys(#[trigger] init[i]) by {
            assert(init[i] == items[i]);
        }
        lemma_wildcard_collect_distinct(init, rest);
        assert(distinct_keys(items[items.len() - 1]));
        lemma_resolve_distinct(items.last(), rest);
        let prev = wildcard_collect(init, rest);
        if let Some(r) = resolve_spec(items.last(), rest) {
            assert forall|j: int| 0 <= j < prev.push(r).len() implies distinct_keys(
                #[trigger] prev.push(r)[j],
            ) by {
                if j < prev.len() {
                    assert(prev.push(r)[j] == prev[j]);
                }
            }
        }
    }
}

// ---------------------------------------------------------------------------
// Laws of resolution.
// ---------------------------------------------------------------------------

/// A field of an object is its own endpoint: requesting it alone answers
/// `{field: value}`. (A field whose name contains a comma or is a wildcard
/// token is read as a field list or a wildcard instead.)
pub proof fn lemma_single_field(m: Seq<(Seq<char>, Json)>, k: Seq<char>)
    requires
        obj_get(m, k) is Some,
        !k.contains(','),
        !is_wildcard_spec(k),
    ensures
        resolve_spec(Json::Object(m), seq![k]) == Some(
            Json::Object(seq![(k, obj_get(m, k)->0)]),
        ),
{
    assert(seq![k].skip(1).len() == 0);
}

/// `*` and `all` are the same wildcard.
pub proof fn lemma_wildcard_tokens_agree(v: Json, rest: Seq<Seq<char>>)
    ensures
        resolve_spec(v, seq!["*"@] + rest) == resolve_spec(v, seq!["all"@] + rest),
{
    reveal_strlit("*");
    reveal_strlit("all");
    let a = seq!["*"@] + rest;
    let b = seq!["all"@] + rest;
    assert(a[0] == "*"@);
    assert(b[0] == "all"@);
    assert(a.skip(1) =~= rest);
    assert(b.skip(1) =~= rest);
    assert(!"*"@.contains(','));
    assert(!"all"@.contains(',')) by {
        assert("all"@[0] != ',' && "all"@[1] != ',' && "all"@[2] != ',');
    }
}

/// `*` and `all` are the same wildcard wherever they stand in a path: after
/// any prefix of segments and before any rest, the two paths give the same
/// answer.
pub proof fn lemma_wildcard_alias(v: Json, prefix: Seq<Seq<char>>, rest: Seq<Seq<char>>)
    ensures
        resolve_spec(v, prefix + seq!["*"@] + rest) == resolve_spec(v, prefix + seq!["all"@] + rest),
    decreases prefix.len(), 0nat,
{
    let a = prefix + seq!["*"@] + rest;
    let b = prefix + seq!["all"@] + rest;
    if prefix.len() == 0 {
        assert(a =~= seq!["*"@] + rest);
        assert(b =~= seq!["all"@] + rest);
        lemma_wildcard_tokens_agree(v, rest);
    } else {
        let head = prefix[0];
        let tail = prefix.skip(1);
        assert(a[0] == head && b[0] == head);
        assert(a.skip(1) =~= tail + seq!["*"@] + rest);
        assert(b.skip(1) =~= tail + seq!["all"@] + rest);
        match v {
            Json::Array(items) => {
                if is_wildcard_spec(head) {
                    lemma_wildcard_collect_alias(items, tail, rest);
                } else if let Some(c) = find_named(items, head) {
                    lemma_wildcard_alias(c, tail, rest);
                }
            },
            Json::Object(m) => {
                if let Some(c) = obj_get(m, head) {
                    lemma_wildcard_alias(c, tail, rest);
                }
            },
            _ => {},
        }
    }
}

proof fn lemma_wildcard_collect_alias(items: Seq<Json>, prefix: Seq<Seq<char>>, rest: Seq<Seq<char>>)
    ensures
        wildcard_collect(items, prefix + seq!["*"@] + rest) == wildcard_collect(
            items,
            prefix + seq!["all"@] + rest,
        ),
    decreases prefix.len(), items.len(),
{
    if items.len() > 0 {
        lemma_wildcard_collect_alias(items.drop_last(), prefix, rest);
        lemma_wildcard_alias(items.last(), prefix, rest);
    }
}

/// Listed fields come back in the order they were listed: when the fields of
/// a comma-separated segment are distinct and all exist, the answer has
/// exactly those fields, in that order, with their values.
pub proof fn lemma_comma_fields_in_order(v: Json, raw: Seq<char>)
    requires
        comma_fields(raw).len() > 0,
        forall|i: int|
            0 <= i < comma_fields(raw).len() ==> child(v, #[trigger] comma_fields(raw)[i]) is Some,
        forall|i: int, j: int|
            0 <= i < j < comma_fields(raw).len() ==> #[trigger] comma_fields(raw)[i]
                != #[trigger] comma_fields(raw)[j],
    ensures
        comma_spec(v, raw) == Some(
            Json::Object(
                Seq::new(
                    comma_fields(raw).len(),
                    |i: int| (comma_fields(raw)[i], child(v, comma_fields(raw)[i])->0),
                ),
            ),
        ),
{
    let fl = comma_fields(raw);
    lemma_collect_in_order(v, fl);
    assert(collect_fields(v, fl) =~= Seq::new(fl.len(), |i: int| (fl[i], child(v, fl[i])->0)));
}

proof fn lemma_collect_in_order(v: Json, fl: Seq<Seq<char>>)
    requires
        forall|i: int| 0 <= i < fl.len() ==> child(v, #[trigger] fl[i]) is Some,
        forall|i: int, j: int| 0 <= i < j < fl.len() ==> #[trigger] fl[i] != #[trigger] fl[j],
    ensures
        collect_fields(v, fl).len() == fl.len(),
        forall|i: int|
            0 <= i < fl.len() ==> #[trigger] collect_fields(v, fl)[i] == (fl[i], child(v, fl[i])->0),
    decreases fl.len(),
{
    if fl.len() > 0 {
        let init = fl.drop_last();
        assert forall|i: int| 0 <= i < init.len() implies child(v, #[trigger] init[i]) is Some by {
            assert(init[i] == fl[i]);
        }
        assert forall|i: int, j: int| 0 <= i < j < init.len() implies #[trigger] init[i]
            != #[trigger] init[j] by {
            assert(init[i] == fl[i] && init[j] == fl[j]);
        }
        lemma_collect_in_order(v, init);
        let prev = collect_fields(v, init);
        let k = fl.last();
        assert(child(v, fl[fl.len() - 1]) is Some);
        assert forall|j: int| 0 <= j < prev.len() implies #[trigger] prev[j].0 != k by {
            assert(prev[j].0 == fl[j]);
            assert(fl[j] != fl[fl.len() - 1]);
        }
        lemma_key_index_absent(prev, k);
    }
}

/// The listed fields that exist in `v`, each at its first occurrence, in the
/// order listed.
pub open spec fn found_fields(v: Json, fl: Seq<Seq<char>>) -> Seq<Seq<char>>
    decreases fl.len(),
{
    if fl.len() == 0 {
        Seq::empty()
    } else {
        let prev = found_fields(v, fl.drop_last());
        let f = fl.last();
        if child(v, f) is Some && !prev.contains(f) {
            prev.push(f)
        } else {
            prev
        }
    }
}

/// The answer to any comma-separated segment: nothing when no listed field
/// exists; otherwise an object whose keys are the listed fields that exist,
/// each once, in the order of their first mention, each with its value one
/// step down. Fields that do not exist are left out.
pub proof fn lemma_comma_fields_general(v: Json, raw: Seq<char>)
    ensures
        found_fields(v, comma_fields(raw)).len() == 0 ==> comma_spec(v, raw) is None,
        found_fields(v, comma_fields(raw)).len() > 0 ==> comma_spec(v, raw) == Some(
            Json::Object(
                Seq::new(
                    found_fields(v, comma_fields(raw)).len(),
                    |i: int|
                        (
                            found_fields(v, comma_fields(raw))[i],
                            child(v, found_fields(v, comma_fields(raw))[i])->0,
                        ),
                ),
            ),
        ),
{
    let fl = comma_fields(raw);
    lemma_collect_found(v, fl);
    let fd = found_fields(v, fl);
    assert(collect_fields(v, fl) =~= Seq::new(fd.len(), |i: int| (fd[i], child(v, fd[i])->0)));
}

proof fn lemma_collect_found(v: Json, fl: Seq<Seq<char>>)
    ensures
        collect_fields(v, fl).len() == found_fields(v, fl).len(),
        forall|i: int|
            0 <= i < found_fields(v, fl).len() ==> #[trigger] collect_fields(v, fl)[i] == (
                found_fields(v, fl)[i],
                child(v, found_fields(v, fl)[i])->0,
            ),
        forall|i: int|
            0 <= i < found_fields(v, fl).len() ==> child(v, #[trigger] found_fields(v, fl)[i]) is Some,
    decreases fl.len(),
{
    if fl.len() > 0 {
        let init = fl.drop_last();
        lemma_collect_found(v, init);
        let prev = collect_fields(v, init);
        let pf = found_fields(v, init);
        let f = fl.last();
        match child(v, f) {
            Some(c) => {
                if pf.contains(f) {
                    let j = choose|j: int| 0 <= j < pf.len() && pf[j] == f;
                    assert(prev[j].0 == f);
                    lemma_key_index_some(prev, f, j);
                    let i = key_index(prev, f)->0;
                    assert(prev[i] == (pf[i], child(v, pf[i])->0));
                    assert(prev.update(i, (f, c)) =~= prev);
                } else {
                    assert forall|j: int| 0 <= j < prev.len() implies #[trigger] prev[j].0 != f by {
                        assert(prev[j].0 == pf[j]);
                        if pf[j] == f {
                            assert(pf.contains(f));
                        }
                    }
                    lemma_key_index_absent(prev, f);
                    let fd = found_fields(v, fl);
                    assert(fd == pf.push(f));
                    assert forall|i: int| 0 <= i < fd.len() implies child(
                        v,
                        #[trigger] fd[i],
                    ) is Some by {
                        if i < pf.len() {
                            assert(fd[i] == pf[i]);
                        }
                    }
                }
            },
            None => {},
        }
    }
}

// ---------------------------------------------------------------------------
// Every listed endpoint resolves.
// ---------------------------------------------------------------------------

/// A key or name that a request path can address on its own: not empty, no
/// `/` (the path separator), no `,` (the field-list separator), and not a
/// wildcard token.
pub open spec fn plain_key(k: Seq<char>) -> bool {
    k.len() > 0 && !k.contains('/') && !k.contains(',') && !is_wildcard_spec(k)
}

pub open spec fn unique_keys(m: Seq<(Seq<char>, Json)>) -> bool {
    forall|i: int, j: int| 0 <= i < j < m.len() ==> #[trigger] m[i].0 != #[trigger] m[j].0
}

/// Arrays whose items can be addressed: names are plain and distinct, and the
/// fields of named items are plain.
pub open spec fn plain_items(items: Seq<Json>) -> bool {
    &&& forall|i: int|
        0 <= i < items.len() && #[trigger] item_name(items[i]) is Some ==> plain_key(
            item_name(items[i])->0,
        )
    &&& forall|i: int, j: int|
        0 <= i < j < items.len() && #[trigger] item_name(items[i]) is Some ==> item_name(items[i])
            != #[trigger] item_name(items[j])
    &&& forall|i: int, j: int|
        0 <= i < items.len() && item_name(items[i]) is Some && 0 <= j
            < items[i]->Object_0.len() && (#[trigger] items[i]->Object_0[j]).0 != "name"@
            ==> plain_key(items[i]->Object_0[j].0)
}

/// Trees whose paths can be written as requests: the keys of every object
/// that the index walks are plain, and its arrays are addressable.
pub open spec fn path_safe(v: Json) -> bool
    decreases v,
{
    match v {
        Json::Object(m) => forall|i: int|
            0 <= i < m.len() ==> plain_key(#[trigger] m[i].0) && match m[i].1 {
                Json::Object(_) => path_safe(m[i].1),
                Json::Array(items) => plain_items(items),
                _ => true,
            },
        _ => true,
    }
}

/// Path-safe trees whose walked objects hold each key once.
spec fn plain_tree(v: Json) -> bool
    decreases v,
{
    match v {
        Json::Object(m) => unique_keys(m) && forall|i: int|
            0 <= i < m.len() ==> plain_key(#[trigger] m[i].0) && match m[i].1 {
                Json::Object(_) => plain_tree(m[i].1),
                Json::Array(items) => plain_items(items),
                _ => true,
            },
        _ => true,
    }
}

/// The path that requests the segments `s`: each preceded by `/`.
pub open spec fn slash_join(s: Seq<Seq<char>>) -> Seq<char>
    decreases s.len(),
{
    if s.len() == 0 {
        Seq::empty()
    } else {
        seq!['/'] + s[0] + slash_join(s.skip(1))
    }
}

proof fn lemma_slash_join_push(s: Seq<Seq<char>>, k: Seq<char>)
    ensures
        slash_join(s.push(k)) == slash_join(s) + seq!['/'] + k,
    decreases s.len(),
{
    let t = s.push(k);
    assert(t[0] == if s.len() == 0 { k } else { s[0] });
    if s.len() == 0 {
        assert(t.skip(1) =~= Seq::<Seq<char>>::empty());
        assert(slash_join(t.skip(1)) == Seq::<char>::empty());
        assert(slash_join(t) == seq!['/'] + k + slash_join(t.skip(1)));
        assert(slash_join(s) == Seq::<char>::empty());
        assert(slash_join(t) =~= slash_join(s) + seq!['/'] + k);
    } else {
        lemma_slash_join_push(s.skip(1), k);
        assert(t.skip(1) =~= s.skip(1).push(k));
        assert(slash_join(t) == seq!['/'] + s[0] + slash_join(t.skip(1)));
        assert(slash_join(s) == seq!['/'] + s[0] + slash_join(s.skip(1)));
        assert(slash_join(t) =~= slash_join(s) + seq!['/'] + k);
    }
}

proof fn lemma_slash_join_cons(k: Seq<char>, s: Seq<Seq<char>>)
    ensures
        slash_join(seq![k] + s) == seq!['/'] + k + slash_join(s),
{
    assert((seq![k] + s).skip(1) =~= s);
    assert((seq![k] + s)[0] == k);
}

proof fn lemma_split_on_append(x: Seq<char>, k: Seq<char>)
    requires
        !k.contains('/'),
    ensures
        split_on(x + seq!['/'] + k, '/') == split_on(x, '/').push(k),
    decreases k.len(),
{
    lemma_split_on_nonempty(x, '/');
    let y = x + seq!['/'] + k;
    if k.len() == 0 {
        assert(k =~= Seq::<char>::empty());
        assert(y.last() == '/');
        assert(y.drop_last() =~= x);
        assert(split_on(y, '/') == split_on(x, '/').push(Seq::<char>::empty()));
        assert(split_on(y, '/') =~= split_on(x, '/').push(k));
    } else {
        let k0 = k.drop_last();
        assert(!k0.contains('/')) by {
            if k0.contains('/') {
                let j = choose|j: int| 0 <= j < k0.len() && k0[j] == '/';
                assert(k[j] == '/');
            }
        }
        assert(k.last() != '/') by {
            assert(k[k.len() - 1] == k.last());
        }
        lemma_split_on_append(x, k0);
        assert(y.drop_last() =~= x + seq!['/'] + k0);
        assert(y.last() == k.last());
        assert(k0.push(k.last()) =~= k);
        let prev = split_on(x + seq!['/'] + k0, '/');
        assert(split_on(y, '/') == prev.update(prev.len() - 1, prev.last().push(k.last())));
        assert(split_on(y, '/') =~= split_on(x, '/').push(k));
    }
}

/// Splitting the path of plain segments gives the segments back.
proof fn lemma_segments_of_join(s: Seq<Seq<char>>)
    requires
        forall|i: int| 0 <= i < s.len() ==> plain_key(#[trigger] s[i]),
    ensures
        path_segments(split_on(slash_join(s), '/')) == s,
    decreases s.len(),
{
    if s.len() == 0 {
        let e = seq![Seq::<char>::empty()];
        assert(split_on(Seq::<char>::empty(), '/') == e);
        assert(e.drop_last() =~= Seq::<Seq<char>>::empty());
        assert(path_segments(e.drop_last()) == Seq::<Seq<char>>::empty());
        assert(e.last().len() == 0);
        assert(path_segments(e) == Seq::<Seq<char>>::empty());
        assert(slash_join(s) == Seq::<char>::empty());
        assert(s =~= Seq::<Seq<char>>::empty());
    } else {
        let init = s.drop_last();
        let k = s.last();
        assert(plain_key(s[s.len() - 1]));
        assert forall|i: int| 0 <= i < init.len() implies plain_key(#[trigger] init[i]) by {
            assert(init[i] == s[i]);
        }
        lemma_segments_of_join(init);
        lemma_slash_join_push(init, k);
        assert(init.push(k) =~= s);
        lemma_split_on_append(slash_join(init), k);
        let sp = split_on(slash_join(init), '/');
        assert(sp.push(k).drop_last() =~= sp);
        assert(path_segments(sp.push(k)) =~= s);
    }
}

proof fn lemma_key_index_some(m: Seq<(Seq<char>, Json)>, k: Seq<char>, r: int)
    requires
        0 <= r < m.len(),
        m[r].0 == k,
    ensures
        key_index(m, k) is Some,
        key_index(m, k) matches Some(i) ==> 0 <= i < m.len() && m[i].0 == k,
    decreases r,
{
    if m[0].0 != k {
        lemma_key_index_some(m.skip(1), k, r - 1);
        assert(m.skip(1)[r - 1] == m[r]);
        let j = key_index(m.skip(1), k)->0;
        assert(m.skip(1)[j] == m[j + 1]);
    }
}

proof fn lemma_key_index_unique(m: Seq<(Seq<char>, Json)>, r: int)
    requires
        0 <= r < m.len(),
        unique_keys(m),
    ensures
        key_index(m, m[r].0) == Some(r),
{
    assert forall|j: int| 0 <= j < r implies #[trigger] m[j].0 != m[r].0 by {
        assert(m[j].0 != m[r].0);
    }
    lemma_key_index_found(m, m[r].0, r);
}

proof fn lemma_item_fields_shape(f: Seq<(Seq<char>, Json)>, ip: Seq<char>, q: int) -> (r: int)
    requires
        0 <= q < item_field_endpoints(f, ip).len(),
    ensures
        0 <= r < f.len(),
        f[r].0 != "name"@,
        item_field_endpoints(f, ip)[q] == join_path(ip, f[r].0),
    decreases f.len(),
{
    let prev = item_field_endpoints(f.drop_last(), ip);
    if q < prev.len() {
        let r = lemma_item_fields_shape(f.drop_last(), ip, q);
        assert(f.drop_last()[r] == f[r]);
        r
    } else {
        (f.len() - 1) as int
    }
}

proof fn lemma_items_shape(items: Seq<Json>, path: Seq<char>, n: int, i: int) -> (s: Seq<
    Seq<char>,
>)
    requires
        plain_items(items),
        0 <= n <= items.len(),
        0 <= i < items_endpoints(items.take(n), path).len(),
    ensures
        items_endpoints(items.take(n), path)[i] == path + slash_join(s),
        1 <= s.len() <= 2,
        forall|j: int| 0 <= j < s.len() ==> plain_key(#[trigger] s[j]),
        resolve_spec(Json::Array(items), s) is Some,
    decreases n,
{
    let t = items.take(n);
    assert(t.drop_last() =~= items.take(n - 1));
    let prev = items_endpoints(items.take(n - 1), path);
    if i < prev.len() {
        lemma_items_shape(items, path, n - 1, i)
    } else {
        let item = items[n - 1];
        assert(t.last() == item);
        let name = item_name(item)->0;
        assert(item_name(items[n - 1]) is Some);
        assert(plain_key(name));
        let ip = join_path(path, name);
        let q = i - prev.len();
        assert forall|u: int| 0 <= u < n - 1 implies item_name(#[trigger] items[u]) != Some(name) by {
            if item_name(items[u]) is Some {
                assert(item_name(items[u]) != item_name(items[n - 1]));
            }
        }
        lemma_find_named_found(items, name, n - 1);
        if q == 0 {
            let s = seq![name];
            lemma_slash_join_cons(name, Seq::<Seq<char>>::empty());
            assert(seq![name] + Seq::<Seq<char>>::empty() =~= s);
            assert(slash_join(Seq::<Seq<char>>::empty()) == Seq::<char>::empty());
            assert(slash_join(s) =~= seq!['/'] + name);
            assert(s.skip(1).len() == 0);
            assert(path + slash_join(s) =~= ip);
            assert(!name.contains(','));
            assert(find_named(items, name) == Some(items[n - 1]));
            assert(resolve_spec(Json::Array(items), s) == Some(items[n - 1]));
            s
        } else {
            let f = item->Object_0;
            let r = lemma_item_fields_shape(f, ip, q - 1);
            let fk = f[r].0;
            assert(plain_key(items[n - 1]->Object_0[r].0));
            let s = seq![name, fk];
            lemma_slash_join_cons(name, seq![fk]);
            lemma_slash_join_cons(fk, Seq::<Seq<char>>::empty());
            assert(seq![name] + seq![fk] =~= s);
            assert(seq![fk] + Seq::<Seq<char>>::empty() =~= seq![fk]);
            assert(path + slash_join(s) =~= join_path(ip, fk));
            assert(s[0] == name);
            assert(s.skip(1) =~= seq![fk]);
            assert(seq![fk].skip(1).len() == 0);
            lemma_key_index_some(f, fk, r);
            assert(!fk.contains(','));
            assert(items[n - 1] == Json::Object(f));
            assert(obj_get(f, fk) is Some);
            assert(resolve_spec(items[n - 1], seq![fk]) is Some);
            assert(resolve_spec(Json::Array(items), s) == resolve_spec(items[n - 1], seq![fk]));
            s
        }
    }
}

proof fn lemma_endpoints_shape(v: Json, prefix: Seq<char>, i: int) -> (s: Seq<Seq<char>>)
    requires
        plain_tree(v),
        0 <= i < endpoints(v, prefix).len(),
    ensures
        endpoints(v, prefix)[i] == prefix + slash_join(s),
        s.len() >= 1,
        forall|j: int| 0 <= j < s.len() ==> plain_key(#[trigger] s[j]),
        resolve_spec(v, s) is Some,
    decreases v, 0nat,
{
    let m = v->Object_0;
    assert(decreases_to!(v => v->Object_0));
    lemma_entries_shape(m, prefix, m.len(), i)
}

proof fn lemma_entries_shape(m: Seq<(Seq<char>, Json)>, prefix: Seq<char>, n: nat, i: int) -> (s:
    Seq<Seq<char>>)
    requires
        plain_tree(Json::Object(m)),
        n <= m.len(),
        0 <= i < entries_endpoints(m, prefix, n).len(),
    ensures
        entries_endpoints(m, prefix, n)[i] == prefix + slash_join(s),
        s.len() >= 1,
        forall|j: int| 0 <= j < s.len() ==> plain_key(#[trigger] s[j]),
        resolve_spec(Json::Object(m), s) is Some,
    decreases m, n,
{
    let prev = entries_endpoints(m, prefix, (n - 1) as nat);
    if i < prev.len() {
        lemma_entries_shape(m, prefix, (n - 1) as nat, i)
    } else {
        let k = m[n - 1].0;
        let c = m[n - 1].1;
        let path = join_path(prefix, k);
        assert(plain_key(m[n - 1].0));
        lemma_key_index_unique(m, n - 1);
        if i == prev.len() {
            let s = seq![k];
            lemma_slash_join_cons(k, Seq::<Seq<char>>::empty());
            assert(seq![k] + Seq::<Seq<char>>::empty() =~= s);
            assert(path =~= prefix + slash_join(s));
            assert(!k.contains(','));
            assert(s.skip(1).len() == 0);
            s
        } else {
            let j = i - prev.len() - 1;
            match c {
                Json::Object(_) => {
                    assert(decreases_to!(m => m[n - 1]));
                    assert(decreases_to!(m[n - 1] => m[n - 1].1));
                    let s1 = lemma_endpoints_shape(c, path, j);
                    let s = seq![k] + s1;
                    lemma_slash_join_cons(k, s1);
                    assert(prefix + slash_join(s) =~= path + slash_join(s1));
                    assert(s[0] == k);
                    assert(s.skip(1) =~= s1);
                    assert forall|t: int| 0 <= t < s.len() implies plain_key(#[trigger] s[t]) by {
                        if t > 0 {
                            assert(s[t] == s1[t - 1]);
                        }
                    }
                    s
                },
                Json::Array(items) => {
                    assert(items.take(items.len() as int) =~= items);
                    let s1 = lemma_items_shape(items, path, items.len() as int, j);
                    let s = seq![k] + s1;
                    lemma_slash_join_cons(k, s1);
                    assert(prefix + slash_join(s) =~= path + slash_join(s1));
                    assert(s[0] == k);
                    assert(s.skip(1) =~= s1);
                    assert forall|t: int| 0 <= t < s.len() implies plain_key(#[trigger] s[t]) by {
                        if t > 0 {
                            assert(s[t] == s1[t - 1]);
                        }
                    }
                    s
                },
                _ => {
                    assert(false);
                    Seq::empty()
                },
            }
        }
    }
}

proof fn lemma_plain_tree(v: Json)
    requires
        distinct_keys(v),
        path_safe(v),
    ensures
        plain_tree(v),
    decreases v,
{
    match v {
        Json::Object(m) => {
            assert forall|i: int| 0 <= i < m.len() implies plain_key(#[trigger] m[i].0) && match m[i].1 {
                Json::Object(_) => plain_tree(m[i].1),
                Json::Array(items) => plain_items(items),
                _ => true,
            } by {
                assert(distinct_keys(m[i].1));
                assert(plain_key(m[i].0));
                if m[i].1 is Object {
                    assert(decreases_to!(v => m));
                    assert(decreases_to!(m => m[i]));
                    assert(decreases_to!(m[i] => m[i].1));
                    lemma_plain_tree(m[i].1);
                }
            }
        },
        _ => {},
    }
}

proof fn lemma_entries_list_keys(m: Seq<(Seq<char>, Json)>, prefix: Seq<char>, n: nat, j: int)
    requires
        n <= m.len(),
        0 <= j < n,
    ensures
        entries_endpoints(m, prefix, n).contains(join_path(prefix, m[j].0)),
    decreases n,
{
    let prev = entries_endpoints(m, prefix, (n - 1) as nat);
    let all = entries_endpoints(m, prefix, n);
    if j < n - 1 {
        lemma_entries_list_keys(m, prefix, (n - 1) as nat, j);
        let k = choose|k: int| 0 <= k < prev.len() && prev[k] == join_path(prefix, m[j].0);
        assert(all[k] == prev[k]);
    } else {
        assert(all[prev.len() as int] == join_path(prefix, m[j].0));
    }
}

/// The index lists every endpoint, and every endpoint it lists can be
/// requested. Listing from the root (`prefix` empty): an object lists `/key`
/// for each of its keys, anything else lists nothing. For trees whose objects
/// hold each key once and whose paths can be written as requests
/// ([`path_safe`]), splitting a listed path into its segments and resolving
/// them gives an answer. (A key containing `/` or `,`, or named `*` or `all`,
/// is listed but addresses something else.)
pub proof fn lemma_listed_endpoints_resolve(v: Json, i: int)
    requires
        distinct_keys(v),
        path_safe(v),
        0 <= i < endpoints(v, Seq::empty()).len(),
    ensures
        resolve_spec(v, path_segments(split_on(endpoints(v, Seq::empty())[i], '/'))) is Some,
{
    lemma_plain_tree(v);
    let s = lemma_endpoints_shape(v, Seq::empty(), i);
    assert(Seq::<char>::empty() + slash_join(s) =~= slash_join(s));
    lemma_segments_of_join(s);
}

/// What the index lists at the top: `/key` for every key of an object, and
/// nothing for any other value.
pub proof fn lemma_endpoints_list_every_key(v: Json)
    ensures
        v is Object ==> forall|j: int|
            0 <= j < v->Object_0.len() ==> endpoints(v, Seq::empty()).contains(
                seq!['/'] + #[trigger] v->Object_0[j].0,
            ),
        !(v is Object) ==> endpoints(v, Seq::empty()).len() == 0,
{
    if let Json::Object(m) = v {
        assert forall|j: int| 0 <= j < m.len() implies endpoints(v, Seq::empty()).contains(
            seq!['/'] + #[trigger] m[j].0,
        ) by {
            lemma_entries_list_keys(m, Seq::empty(), m.len(), j);
            assert(join_path(Seq::empty(), m[j].0) =~= seq!['/'] + m[j].0);
        }
    }
}

// ---------------------------------------------------------------------------
// Laws of wildcards and of the index.
// ---------------------------------------------------------------------------

proof fn lemma_wildcard_no_comma(w: Seq<char>)
    requires
        is_wildcard_spec(w),
    ensures
        !w.contains(','),
{
    reveal_strlit("*");
    reveal_strlit("all");
    if w == "all"@ {
        assert(w[0] != ',' && w[1] != ',' && w[2] != ',');
    } else {
        assert(w[0] != ',');
    }
}

/// A wildcard as the last segment answers an array with its items
/// themselves: every item once, in array order. An empty array has no answer.
pub proof fn lemma_trailing_wildcard(items: Seq<Json>, w: Seq<char>)
    requires
        is_wildcard_spec(w),
    ensures
        items.len() > 0 ==> resolve_spec(Json::Array(items), seq![w]) == Some(Json::Array(items)),
        items.len() == 0 ==> resolve_spec(Json::Array(items), seq![w]) is None,
{
    lemma_wildcard_no_comma(w);
    assert(seq![w][0] == w);
    assert(seq![w].skip(1).len() == 0);
}

proof fn lemma_collect_every_item(items: Seq<Json>, rest: Seq<Seq<char>>)
    requires
        forall|i: int| 0 <= i < items.len() ==> #[trigger] resolve_spec(items[i], rest) is Some,
    ensures
        wildcard_collect(items, rest) == Seq::new(
            items.len(),
            |i: int| resolve_spec(items[i], rest)->0,
        ),
    decreases items.len(),
{
    if items.len() > 0 {
        let init = items.drop_last();
        assert forall|i: int| 0 <= i < init.len() implies #[trigger] resolve_spec(init[i], rest) is Some by {
            assert(init[i] == items[i]);
        }
        lemma_collect_every_item(init, rest);
        assert(resolve_spec(items[items.len() - 1], rest) is Some);
        assert(wildcard_collect(items, rest) =~= Seq::new(
            items.len(),
            |i: int| resolve_spec(items[i], rest)->0,
        ));
    }
}

/// A wildcard followed by more segments answers, item by item in array
/// order, what the rest of the path gives on each item: when every item
/// gives an answer, the `i`-th answer is that of the `i`-th item.
pub proof fn lemma_wildcard_each_item(items: Seq<Json>, w: Seq<char>, rest: Seq<Seq<char>>)
    requires
        is_wildcard_spec(w),
        rest.len() > 0,
        items.len() > 0,
        forall|i: int| 0 <= i < items.len() ==> #[trigger] resolve_spec(items[i], rest) is Some,
    ensures
        resolve_spec(Json::Array(items), seq![w] + rest) == Some(
            Json::Array(Seq::new(items.len(), |i: int| resolve_spec(items[i], rest)->0)),
        ),
{
    let segs = seq![w] + rest;
    assert(segs[0] == w);
    assert(segs.skip(1) =~= rest);
    lemma_collect_every_item(items, rest);
}

/// What lies below an entry of an object in the index.
pub open spec fn entry_below(c: Json, path: Seq<char>) -> Seq<Seq<char>> {
    match c {
        Json::Object(_) => endpoints(c, path),
        Json::Array(items) => items_endpoints(items, path),
        _ => Seq::empty(),
    }
}

proof fn lemma_entries_cover(m: Seq<(Seq<char>, Json)>, prefix: Seq<char>, n: nat, j: int)
    requires
        n <= m.len(),
        0 <= j < n,
    ensures
        forall|x: Seq<char>|
            #[trigger] entry_below(m[j].1, join_path(prefix, m[j].0)).contains(x)
                ==> entries_endpoints(m, prefix, n).contains(x),
    decreases n,
{
    let prev = entries_endpoints(m, prefix, (n - 1) as nat);
    let path = join_path(prefix, m[n - 1].0);
    let sub = entry_below(m[n - 1].1, path);
    let all = entries_endpoints(m, prefix, n);
    assert(all == prev + seq![path] + sub);
    if j < n - 1 {
        lemma_entries_cover(m, prefix, (n - 1) as nat, j);
        assert forall|x: Seq<char>|
            #[trigger] entry_below(m[j].1, join_path(prefix, m[j].0)).contains(x)
                implies all.contains(x) by {
            let k = choose|k: int| 0 <= k < prev.len() && prev[k] == x;
            assert(all[k] == prev[k]);
        }
    } else {
        assert forall|x: Seq<char>| #[trigger] sub.contains(x) implies all.contains(x) by {
            let k = choose|k: int| 0 <= k < sub.len() && sub[k] == x;
            assert(all[prev.len() + 1 + k] == sub[k]);
        }
    }
}

proof fn lemma_items_cover(items: Seq<Json>, path: Seq<char>, i: int)
    requires
        0 <= i < items.len(),
    ensures
        forall|x: Seq<char>|
            #[trigger] item_endpoints(items[i], path).contains(x) ==> items_endpoints(
                items,
                path,
            ).contains(x),
    decreases items.len(),
{
    let init = items.drop_last();
    let prev = items_endpoints(init, path);
    let last = item_endpoints(items.last(), path);
    let all = items_endpoints(items, path);
    if i < items.len() - 1 {
        lemma_items_cover(init, path, i);
        assert(init[i] == items[i]);
        assert forall|x: Seq<char>| #[trigger] item_endpoints(items[i], path).contains(x) implies all.contains(
            x,
        ) by {
            assert(item_endpoints(init[i], path).contains(x));
            let k = choose|k: int| 0 <= k < prev.len() && prev[k] == x;
            assert(all[k] == prev[k]);
        }
    } else {
        assert forall|x: Seq<char>| #[trigger] last.contains(x) implies all.contains(x) by {
            let k = choose|k: int| 0 <= k < last.len() && last[k] == x;
            assert(all[prev.len() + k] == last[k]);
        }
    }
}

proof fn lemma_item_field_listed(fields: Seq<(Seq<char>, Json)>, ip: Seq<char>, f: int)
    requires
        0 <= f < fields.len(),
        fields[f].0 != "name"@,
    ensures
        item_field_endpoints(fields, ip).contains(join_path(ip, fields[f].0)),
    decreases fields.len(),
{
    let init = fields.drop_last();
    let prev = item_field_endpoints(init, ip);
    if f < fields.len() - 1 {
        lemma_item_field_listed(init, ip, f);
        assert(init[f] == fields[f]);
        let k = choose|k: int| 0 <= k < prev.len() && prev[k] == join_path(ip, fields[f].0);
        assert(item_field_endpoints(fields, ip)[k] == prev[k]);
    } else {
        assert(item_field_endpoints(fields, ip) == prev.push(join_path(ip, fields[f].0)));
        assert(item_field_endpoints(fields, ip)[prev.len() as int] == join_path(ip, fields[f].0));
    }
}

/// Everything that the index lists below a nested object is listed in the
/// index of the object that holds it, under the field's path.
pub proof fn lemma_nested_endpoints_listed(
    m: Seq<(Seq<char>, Json)>,
    prefix: Seq<char>,
    j: int,
    x: Seq<char>,
)
    requires
        0 <= j < m.len(),
        m[j].1 is Object,
        endpoints(m[j].1, join_path(prefix, m[j].0)).contains(x),
    ensures
        endpoints(Json::Object(m), prefix).contains(x),
{
    assert(Json::Object(m)->Object_0 == m);
    lemma_entries_cover(m, prefix, m.len(), j);
    assert(entry_below(m[j].1, join_path(prefix, m[j].0)).contains(x));
}

/// The index lists every named item of an array, and every field of such an
/// item whatever its value, except the `name` field itself: for an array at
/// key `key` of an object at `prefix`, an item named `n` lists
/// `prefix/key/n` and `prefix/key/n/k` for each of its other keys `k`.
pub proof fn lemma_item_fields_listed(
    m: Seq<(Seq<char>, Json)>,
    prefix: Seq<char>,
    j: int,
    items: Seq<Json>,
    i: int,
    fields: Seq<(Seq<char>, Json)>,
    f: int,
)
    requires
        0 <= j < m.len(),
        m[j].1 == Json::Array(items),
        0 <= i < items.len(),
        items[i] == Json::Object(fields),
        item_name(items[i]) is Some,
        0 <= f < fields.len(),
        fields[f].0 != "name"@,
    ensures
        endpoints(Json::Object(m), prefix).contains(
            join_path(join_path(prefix, m[j].0), item_name(items[i])->0),
        ),
        endpoints(Json::Object(m), prefix).contains(
            join_path(join_path(join_path(prefix, m[j].0), item_name(items[i])->0), fields[f].0),
        ),
{
    assert(Json::Object(m)->Object_0 == m);
    assert(Json::Array(items)->Array_0 == items);
    assert(Json::Object(fields)->Object_0 == fields);
    let path = join_path(prefix, m[j].0);
    let ip = join_path(path, item_name(items[i])->0);
    let x = join_path(ip, fields[f].0);
    lemma_entries_cover(m, prefix, m.len(), j);
    lemma_items_cover(items, path, i);
    lemma_item_field_listed(fields, ip, f);
    let ie = item_endpoints(items[i], path);
    assert(ie == seq![ip] + item_field_endpoints(fields, ip));
    assert(ie[0] == ip);
    assert(ie.contains(ip));
    let k = choose|k: int| 0 <= k < item_field_endpoints(fields, ip).len() && item_field_endpoints(fields, ip)[k] == x;
    assert(ie[1 + k] == x);
    assert(ie.contains(x));
    assert(entry_below(m[j].1, path) == items_endpoints(items, path));
}

/// Below any prefix, the index of an object lists `prefix/key` for each of
/// its keys.
pub proof fn lemma_endpoints_list_keys_at(m: Seq<(Seq<char>, Json)>, prefix: Seq<char>, j: int)
    requires
        0 <= j < m.len(),
    ensures
        endpoints(Json::Object(m), prefix).contains(join_path(prefix, m[j].0)),
{
    assert(Json::Object(m)->Object_0 == m);
    lemma_entries_list_keys(m, prefix, m.len(), j);
}

} // verus!
