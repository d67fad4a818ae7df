//! What holds of every merge.

use vstd::prelude::*;
use crate::key::key_index;
use crate::merge::{
    field_or_null, index_addressed, merged, merged_fields, merged_items, not_null, without_nulls,
};
use crate::object::{keys_in_order, lemma_keys_listed};
use crate::value::Json;

verus! {

/// A patch that is neither an object nor an array replaces the target: after
/// the merge the target is the patch, whatever it was before.
pub proof fn lemma_plain_patch_replaces(target: Json, patch: Json)
    requires
        !(patch is Object),
        !(patch is Array),
    ensures
        merged(target, patch) == patch,
{
}

/// Merging an object patch without null fields into an empty object gives an
/// object with the keys of the patch, and under each key what merging the
/// field of the patch into null gives: the field itself, where it is neither
/// an object nor an array.
pub proof fn lemma_patch_into_empty_object(patch: Map<Seq<char>, Json>)
    requires
        patch.dom().finite(),
        forall|key: Seq<char>| patch.contains_key(key) ==> !(patch[key] is Null),
    ensures
        merged(Json::Object(Map::empty()), Json::Object(patch)) is Object,
        merged(Json::Object(Map::empty()), Json::Object(patch))->Object_0.dom() == patch.dom(),
        forall|key: Seq<char>|
            patch.contains_key(key) ==> merged(Json::Object(Map::empty()), Json::Object(patch))->Object_0[key]
                == merged(Json::Null, #[trigger] patch[key]),
        forall|key: Seq<char>|
            patch.contains_key(key) && !(patch[key] is Object) && !(patch[key] is Array) ==> merged(
                Json::Object(Map::empty()),
                Json::Object(patch),
            )->Object_0[key] == #[trigger] patch[key],
{
    assert(merged(Json::Object(Map::empty()), Json::Object(patch)) == Json::Object(
        merged_fields(Map::empty(), patch),
    ));
}

/// A key that an object patch holds with null is not a key of the object
/// that the merge leaves: where the target had the key it is gone, and where
/// the target had it not it stays away.
pub proof fn lemma_null_field_removes_key(target: Json, patch: Map<Seq<char>, Json>, key: Seq<char>)
    requires
        target is Object,
        patch.dom().finite(),
        patch.contains_key(key),
        patch[key] is Null,
    ensures
        merged(target, Json::Object(patch)) is Object,
        !merged(target, Json::Object(patch))->Object_0.contains_key(key),
{
}

/// A key that an object patch does not hold is left as it was: it is a key
/// of the object after the merge just when it was one before, with the same
/// value.
pub proof fn lemma_other_fields_stay(target: Json, patch: Map<Seq<char>, Json>, key: Seq<char>)
    requires
        target is Object,
        patch.dom().finite(),
        !patch.contains_key(key),
    ensures
        merged(target, Json::Object(patch)) is Object,
        merged(target, Json::Object(patch))->Object_0.contains_key(key) == target->Object_0.contains_key(key),
        target->Object_0.contains_key(key) ==> merged(target, Json::Object(patch))->Object_0[key]
            == target->Object_0[key],
{
}

/// An array patch replaces the target by the items of the patch that are not
/// null, in their order, whatever the target was.
pub proof fn lemma_array_patch_replaces(target: Json, items: Seq<Json>)
    ensures
        merged(target, Json::Array(items)) == Json::Array(without_nulls(items)),
        forall|i: int| 0 <= i < without_nulls(items).len() ==> !(#[trigger] without_nulls(items)[i] is Null),
        forall|item: Json| !(item is Null) ==> without_nulls(items).contains(item) == items.contains(item),
{
    assert forall|item: Json| !(item is Null) implies without_nulls(items).contains(item)
        == items.contains(item) by {
        if without_nulls(items).contains(item) {
            items.lemma_filter_contains_rev(not_null(), item);
        }
    }
}

/// An index-addressed patch that changes the items of an array where they
/// stand: every key addresses an item that is there, no two keys address the
/// same item, and no field is null. Such a patch neither removes an item nor
/// adds one.
pub open spec fn patches_in_place(items: Seq<Json>, patch: Map<Seq<char>, Json>) -> bool {
    &&& forall|key: Seq<char>| #[trigger]
        patch.contains_key(key) ==> {
            &&& key_index(key) is Some
            &&& key_index(key)->0 < items.len()
            &&& !(patch[key] is Null)
        }
    &&& forall|a: Seq<char>, b: Seq<char>|
        #![trigger patch.contains_key(a), patch.contains_key(b)]
        patch.contains_key(a) && patch.contains_key(b) && a != b ==> key_index(a) != key_index(b)
}

/// Merging `patch` into `target` moves no item of an array: wherever the
/// merge comes to patch an array by index, at any depth, it patches it in
/// place.
pub open spec fn moves_no_item(target: Json, patch: Json) -> bool
    decreases patch,
    when patch.finite()
{
    match patch {
        Json::Object(fields) => {
            if target is Array && index_addressed(fields) {
                &&& patches_in_place(target->Array_0, fields)
                &&& forall|key: Seq<char>| #[trigger]
                    fields.contains_key(key) ==> moves_no_item(
                        target->Array_0[key_index(key)->0 as int],
                        fields[key],
                    )
            } else if target is Object {
                forall|key: Seq<char>| #[trigger]
                    fields.contains_key(key) && !(fields[key] is Null) ==> moves_no_item(
                        field_or_null(target->Object_0, key),
                        fields[key],
                    )
            } else {
                forall|key: Seq<char>| #[trigger]
                    fields.contains_key(key) && !(fields[key] is Null) ==> moves_no_item(Json::Null, fields[key])
            }
        },
        _ => true,
    }
}

/// What an index-addressed patch that works in place makes of the items
/// after its first `n` keys: the items that those keys address are merged
/// with their fields, and the others are as they were.
proof fn lemma_items_in_place(items: Seq<Json>, patch: Map<Seq<char>, Json>, n: nat)
    requires
        patch.dom().finite(),
        patches_in_place(items, patch),
        n <= patch.len(),
    ensures
        merged_items(items, patch, n).len() == items.len(),
        forall|j: int|
            0 <= j < n ==> merged_items(items, patch, n)[key_index(keys_in_order(patch)[j])->0 as int]
                == merged(
                items[key_index(keys_in_order(patch)[j])->0 as int],
                patch[#[trigger] keys_in_order(patch)[j]],
            ),
        forall|i: int|
            0 <= i < items.len() && (forall|j: int|
                0 <= j < n ==> key_index(#[trigger] keys_in_order(patch)[j])->0 != i) ==> #[trigger] merged_items(
                items,
                patch,
                n,
            )[i] == items[i],
    decreases n,
{
    lemma_keys_listed(patch);
    let keys = keys_in_order(patch);
    if n > 0 {
        lemma_items_in_place(items, patch, (n - 1) as nat);
        let key = keys[n - 1];
        assert(keys.contains(key));
        let index = key_index(key)->0 as int;
        assert forall|j: int| 0 <= j < n - 1 implies key_index(#[trigger] keys[j])->0 != index by {
            assert(keys.contains(keys[j]));
        }
        assert forall|j: int| 0 <= j < n implies merged_items(items, patch, n)[key_index(keys[j])->0 as int]
            == merged(items[key_index(keys[j])->0 as int], patch[#[trigger] keys[j]]) by {
            assert(keys.contains(keys[j]));
        }
    }
}

/// Merging the same patch a second time changes nothing, as long as the
/// merge moves no item of an array: `merged(merged(t, p), p) == merged(t, p)`.
///
/// A patch that removes an item of an array by its index, or adds one
/// behind its end, may do so again at the second merge, and of two keys that
/// address one item the first may find at the second merge what the other
/// left: such patches are left out.
pub proof fn lemma_merge_twice(target: Json, patch: Json)
    requires
        patch.finite(),
        moves_no_item(target, patch),
    ensures
        merged(merged(target, patch), patch) == merged(target, patch),
    decreases patch,
{
    match patch {
        Json::Object(fields) => {
            if target is Array && index_addressed(fields) {
                let items = target->Array_0;
                let n = fields.len();
                let first = merged_items(items, fields, n);
                let second = merged_items(first, fields, n);
                lemma_keys_listed(fields);
                let keys = keys_in_order(fields);
                lemma_items_in_place(items, fields, n);
                lemma_items_in_place(first, fields, n);
                assert forall|i: int| 0 <= i < first.len() implies second[i] == first[i] by {
                    if exists|j: int| 0 <= j < n && key_index(#[trigger] keys[j])->0 == i {
                        let j = choose|j: int| 0 <= j < n && key_index(#[trigger] keys[j])->0 == i;
                        let key = keys[j];
                        assert(keys.contains(key));
                        lemma_merge_twice(items[i], fields[key]);
                    }
                }
                assert(second =~= first);
            } else {
                let held = if target is Object {
                    target->Object_0
                } else {
                    Map::empty()
                };
                let first = merged_fields(held, fields);
                let second = merged_fields(first, fields);
                assert forall|key: Seq<char>| #[trigger] second.contains_key(key) implies second[key]
                    == first[key] by {
                    if fields.contains_key(key) {
                        lemma_merge_twice(field_or_null(held, key), fields[key]);
                    }
                }
                assert(second =~= first);
            }
        },
        _ => {},
    }
}

} // verus!
