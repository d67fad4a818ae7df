//! Merging a patch into a target.
//!
//! [`merged`] says what a merge gives, over the views of the two documents;
//! [`json_merge_patch`] carries the merge out on the target.

use vstd::prelude::*;
use crate::key::{key_index, parse_index};
use crate::object::{keys_in_order, lemma_keys_listed, lists_keys, Object};
use crate::value::{items_view, Json, Value};

verus! {

/// The value under `key`, or null where the map has no such key.
pub open spec fn field_or_null(fields: Map<Seq<char>, Json>, key: Seq<char>) -> Json {
    if fields.contains_key(key) {
        fields[key]
    } else {
        Json::Null
    }
}

/// Every key of the patch addresses an array index.
pub open spec fn index_addressed(patch: Map<Seq<char>, Json>) -> bool {
    forall|key: Seq<char>| patch.contains_key(key) ==> key_index(key) is Some
}

/// The items that are not null, in their order.
pub open spec fn without_nulls(items: Seq<Json>) -> Seq<Json> {
    items.filter(not_null())
}

/// The test that null fails and every other value passes.
pub open spec fn not_null() -> spec_fn(Json) -> bool {
    |item: Json| !(item is Null)
}

/// `items`, filled up with nulls to the length `index`, and then `value`.
pub open spec fn grown(items: Seq<Json>, index: int, value: Json) -> Seq<Json> {
    items + Seq::new((index - items.len()) as nat, |i: int| Json::Null) + seq![value]
}

/// What merging `patch` into `target` makes of `target`.
///
/// An object patch whose keys all address indices patches an array target
/// item by item. Any other object patch gives an object: the fields of the
/// target patched, where the target is an object, and else the empty object
/// patched. An array patch gives its items that are not null, and any other
/// patch gives itself.
pub open spec fn merged(target: Json, patch: Json) -> Json
    decreases patch, 0nat,
{
    match patch {
        Json::Object(fields) => {
            if target is Array && index_addressed(fields) {
                Json::Array(merged_items(target->Array_0, fields, fields.len()))
            } else if target is Object {
                Json::Object(merged_fields(target->Object_0, fields))
            } else {
                Json::Object(merged_fields(Map::empty(), fields))
            }
        },
        Json::Array(items) => Json::Array(without_nulls(items)),
        _ => patch,
    }
}

/// The fields of an object after an object patch: a key that the patch holds
/// with null is gone, a key that it holds with another value has what merging
/// that value into the field gives, and every other field is as it was.
pub open spec fn merged_fields(
    target: Map<Seq<char>, Json>,
    patch: Map<Seq<char>, Json>,
) -> Map<Seq<char>, Json>
    decreases patch, 0nat,
    when patch.dom().finite()
{
    Map::new(
        |key: Seq<char>|
            if patch.contains_key(key) {
                !(patch[key] is Null)
            } else {
                target.contains_key(key)
            },
        |key: Seq<char>|
            if patch.contains_key(key) {
                merged(field_or_null(target, key), patch[key])
            } else {
                target[key]
            },
    )
}

/// The items of an array after the first `n` keys of an index-addressed
/// patch, taken in key order, have been applied one after the other.
///
/// A key whose index lies at or behind the end fills the array up with nulls
/// to that index and adds its field there as it is. A key whose index lies
/// within the array takes the item away where its field is null, so that the
/// items behind move up, and else merges its field into the item.
pub open spec fn merged_items(items: Seq<Json>, patch: Map<Seq<char>, Json>, n: nat) -> Seq<Json>
    decreases patch, n,
    when patch.dom().finite()
{
    if n == 0 || n > keys_in_order(patch).len() {
        items
    } else {
        let so_far = merged_items(items, patch, (n - 1) as nat);
        let key = keys_in_order(patch)[n - 1];
        if patch.contains_key(key) && key_index(key) is Some {
            let index = key_index(key)->0 as int;
            if index >= so_far.len() {
                grown(so_far, index, patch[key])
            } else if patch[key] is Null {
                so_far.remove(index)
            } else {
                so_far.update(index, merged(so_far[index], patch[key]))
            }
        } else {
            so_far
        }
    }
}

/// The fields of an object after the first `n` of `keys` have been patched.
spec fn partly_merged(
    target: Map<Seq<char>, Json>,
    patch: Map<Seq<char>, Json>,
    keys: Seq<Seq<char>>,
    n: int,
) -> Map<Seq<char>, Json> {
    Map::new(
        |key: Seq<char>|
            if keys.take(n).contains(key) {
                !(patch[key] is Null)
            } else {
                target.contains_key(key)
            },
        |key: Seq<char>|
            if keys.take(n).contains(key) {
                merged(field_or_null(target, key), patch[key])
            } else {
                target[key]
            },
    )
}

/// Tells whether every key of `fields` addresses an array index.
fn addresses_indices(fields: &Object) -> (r: bool)
    ensures
        r == index_addressed(fields@),
{
    let n = fields.len();
    let ghost keys = keys_in_order(fields@);
    proof {
        lemma_keys_listed(fields@);
    }
    let mut i: usize = 0;
    while i < n
        invariant
            i <= n,
            n == fields@.len(),
            keys == keys_in_order(fields@),
            keys.len() == n,
            lists_keys(keys, fields@),
            forall|j: int| 0 <= j < i ==> key_index(#[trigger] keys[j]) is Some,
        decreases n - i,
    {
        let (key, _) = fields.entry_at(i);
        if parse_index(key.as_str()).is_none() {
            return false;
        }
        i += 1;
    }
    proof {
        assert forall|key: Seq<char>| fields@.contains_key(key) implies key_index(key) is Some by {
            assert(keys.contains(key));
        }
    }
    true
}

/// Copies the items that are not null, in their order.
fn non_null_items(items: &Vec<Value>) -> (r: Vec<Value>)
    ensures
        items_view(r@) == without_nulls(items_view(items@)),
{
    let ghost all = items_view(items@);
    let mut kept: Vec<Value> = Vec::new();
    let mut i: usize = 0;
    while i < items.len()
        invariant
            i <= items@.len(),
            all == items_view(items@),
            items_view(kept@) == without_nulls(all.take(i as int)),
        decreases items@.len() - i,
    {
        proof {
            all.take(i as int).lemma_filter_push(all[i as int], not_null());
            assert(all.take(i + 1) =~= all.take(i as int).push(all[i as int]));
        }
        match &items[i] {
            Value::Null => {},
            item => {
                kept.push(item.clone());
            },
        }
        i += 1;
    }
    assert(all.take(i as int) =~= all);
    kept
}

/// Applies an index-addressed patch to the items of an array, key by key in
/// key order.
fn merge_items(items: &mut Vec<Value>, fields: &Object)
    ensures
        items_view(final(items)@) == merged_items(items_view(old(items)@), fields@, fields@.len()),
    decreases fields@, 0nat,
{
    let ghost start = items_view(items@);
    let ghost keys = keys_in_order(fields@);
    let n = fields.len();
    proof {
        lemma_keys_listed(fields@);
    }
    let mut i: usize = 0;
    while i < n
        invariant
            i <= n,
            n == fields@.len(),
            fields@.dom().finite(),
            keys == keys_in_order(fields@),
            keys.len() == n,
            items_view(items@) == merged_items(start, fields@, i as nat),
        decreases n - i,
    {
        let (key, value) = fields.entry_at(i);
        let ghost so_far = items_view(items@);
        match parse_index(key.as_str()) {
            Some(index) => {
                if index >= items.len() {
                    while items.len() < index
                        invariant
                            so_far.len() <= items@.len() <= index,
                            items_view(items@) == so_far + Seq::new(
                                (items@.len() - so_far.len()) as nat,
                                |j: int| Json::Null,
                            ),
                        decreases index - items@.len(),
                    {
                        let ghost before = items@;
                        items.push(Value::Null);
                        assert(items_view(items@) =~= items_view(before).push(Json::Null));
                    }
                    items.push(value.clone());
                } else {
                    match value {
                        Value::Null => {
                            items.remove(index);
                        },
                        _ => {
                            json_merge_patch(&mut items[index], value);
                        },
                    }
                }
            },
            None => {},
        }
        i += 1;
    }
}

/// Applies an object patch to the fields of an object.
fn merge_fields(target: &mut Object, fields: &Object)
    ensures
        final(target)@ == merged_fields(old(target)@, fields@),
    decreases fields@, 0nat,
{
    let ghost start = target@;
    let ghost keys = keys_in_order(fields@);
    let n = fields.len();
    proof {
        lemma_keys_listed(fields@);
    }
    let mut i: usize = 0;
    while i < n
        invariant
            i <= n,
            n == fields@.len(),
            fields@.dom().finite(),
            keys == keys_in_order(fields@),
            keys.len() == n,
            lists_keys(keys, fields@),
            target@ == partly_merged(start, fields@, keys, i as int),
        decreases n - i,
    {
        let (key, value) = fields.entry_at(i);
        let ghost done = keys.take(i as int);
        let ghost next = keys.take(i + 1);
        proof {
            assert forall|k: Seq<char>| next.contains(k) <==> (k == key@ || done.contains(k)) by {
                if k == key@ {
                    assert(next[i as int] == k);
                }
            }
        }
        match value {
            Value::Null => {
                target.remove(key.as_str());
            },
            _ => {
                let mut held = match target.insert(key.clone(), Value::Null) {
                    Some(found) => found,
                    None => Value::Null,
                };
                json_merge_patch(&mut held, value);
                target.insert(key.clone(), held);
            },
        }
        i += 1;
    }
    proof {
        assert(keys.take(n as int) =~= keys);
    }
}

/// Merges `patch` into `target`.
///
/// An object patch works on the fields of an object target: a field that the
/// patch holds with null goes, and every other field of the patch is merged
/// into the field of that name, which starts as null where the target has
/// none. Where every key of the patch addresses an index, an array target is
/// kept and patched item by item. Any other target first becomes an empty
/// object. An array patch replaces the target by its items that are not
/// null, and any other patch replaces the target by itself.
pub fn json_merge_patch(target: &mut Value, patch: &Value)
    ensures
        final(target)@ == merged(old(target)@, patch@),
    decreases patch@, 1nat,
{
    match patch {
        Value::Object(fields) => {
            proof {
                fields.lemma_view_finite();
            }
            let by_index = match target {
                Value::Array(_) => addresses_indices(fields),
                _ => false,
            };
            if by_index {
                match target {
                    Value::Array(items) => {
                        merge_items(items, fields);
                    },
                    _ => {},
                }
            } else {
                match target {
                    Value::Object(_) => {},
                    _ => {
                        *target = Value::Object(Object::new());
                    },
                }
                match target {
                    Value::Object(target_fields) => {
                        merge_fields(target_fields, fields);
                    },
                    _ => {},
                }
            }
        },
        Value::Array(items) => {
            *target = Value::Array(non_null_items(items));
        },
        _ => {
            *target = patch.clone();
        },
    }
}

} // verus!
