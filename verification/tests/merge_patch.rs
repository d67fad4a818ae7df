use json_merge_patch::{json_merge_patch, Object, Value};

fn value_of(json: &serde_json::Value) -> Value {
    match json {
        serde_json::Value::Null => Value::Null,
        serde_json::Value::Bool(b) => Value::Bool(*b),
        serde_json::Value::Number(n) => Value::Number(n.clone()),
        serde_json::Value::String(s) => Value::String(s.clone()),
        serde_json::Value::Array(items) => Value::Array(items.iter().map(value_of).collect()),
        serde_json::Value::Object(fields) => {
            let mut object = Object::new();
            for (key, value) in fields {
                object.insert(key.clone(), value_of(value));
            }
            Value::Object(object)
        }
    }
}

fn parse(text: &str) -> Value {
    let json: serde_json::Value = serde_json::from_str(text).unwrap();
    value_of(&json)
}

#[test]
fn test_json_merge_patch_should_merge_objects_and_override_field() {
    let mut target = parse(r#"{"a": "b", "c": {"d": "e", "f": "g"}}"#);
    let patch = parse(r#"{"a": "z", "c": {"f": null}}"#);

    json_merge_patch(&mut target, &patch);

    let expected = parse(r#"{"a": "z", "c": {"d": "e"}}"#);
    assert_eq!(target, expected);
}

#[test]
fn test_json_merge_patch_should_override_field_in_object() {
    let mut target = parse(r#"{"a": "b"}"#);
    let patch = parse(r#"{"a": "c"}"#);
    let expected = parse(r#"{"a": "c"}"#);

    json_merge_patch(&mut target, &patch);

    assert_eq!(target, expected);
}

#[test]
fn test_json_merge_patch_should_add_field_to_object() {
    let mut target = parse(r#"{"a": "b"}"#);
    let patch = parse(r#"{"b": "c"}"#);
    let expected = parse(r#"{"a": "b", "b": "c"}"#);

    json_merge_patch(&mut target, &patch);

    assert_eq!(target, expected);
}

#[test]
fn test_json_merge_patch_should_remove_field_from_object() {
    let mut target = parse(r#"{"a": "b", "b": "c"}"#);
    let patch = parse(r#"{"a": null}"#);
    let expected = parse(r#"{"b": "c"}"#);

    json_merge_patch(&mut target, &patch);

    assert_eq!(target, expected);
}

#[test]
fn test_json_merge_patch_should_override_field_in_array() {
    let mut target = parse(r#"{"a": ["b"]}"#);
    let patch = parse(r#"{"a": "c"}"#);
    let expected = parse(r#"{"a": "c"}"#);

    json_merge_patch(&mut target, &patch);

    assert_eq!(target, expected);
}

#[test]
fn test_json_merge_patch_should_replace_array_with_scalar() {
    let mut target = parse(r#"{"a": "c"}"#);
    let patch = parse(r#"{"a": ["b"]}"#);
    let expected = parse(r#"{"a": ["b"]}"#);

    json_merge_patch(&mut target, &patch);

    assert_eq!(target, expected);
}

#[test]
fn test_json_merge_patch_should_merge_objects_in_object() {
    let mut target = parse(r#"{"a": {"b": "c"}}"#);
    let patch = parse(r#"{"a": {"b": "d", "c": null}}"#);
    let expected = parse(r#"{"a": {"b": "d"}}"#);

    json_merge_patch(&mut target, &patch);

    assert_eq!(target, expected);
}

#[test]
fn test_json_merge_patch_should_replace_array_with_value() {
    let mut target = parse(r#"{"a": [{"b": "c"}]}"#);
    let patch = parse(r#"{"a": [1]}"#);
    let expected = parse(r#"{"a": [1]}"#);

    json_merge_patch(&mut target, &patch);

    assert_eq!(target, expected);
}

#[test]
fn test_json_merge_patch_should_merge_nested_objects_and_remove_leaf_nodes() {
    let mut target = parse(r#"{}"#);
    let patch = parse(r#"{"a": {"bb": {"ccc": null}}}"#);
    let expected = parse(r#"{"a": {"bb": {}}}"#);

    json_merge_patch(&mut target, &patch);

    assert_eq!(target, expected);
}

#[test]
fn test_json_merge_patch_should_replace_scalar_with_scalar() {
    let mut target = parse(r#"{"a": "b"}"#);
    let patch = parse(r#"["c"]"#);
    let expected = parse(r#"["c"]"#);

    json_merge_patch(&mut target, &patch);

    assert_eq!(target, expected);
}

#[test]
fn test_json_merge_patch_should_replace_scalar_with_null() {
    let mut target = parse(r#"{"a": "foo"}"#);
    let patch = Value::Null;

    json_merge_patch(&mut target, &patch);

    assert_eq!(target, Value::Null);
}

#[test]
fn test_json_merge_patch_should_replace_scalar_with_string() {
    let mut target = parse(r#"{"a": "foo"}"#);
    let patch = parse(r#""bar""#);
    let expected = parse(r#""bar""#);

    json_merge_patch(&mut target, &patch);

    assert_eq!(target, expected);
}

#[test]
fn test_json_merge_patch_should_merge_null_with_scalar() {
    let mut target = parse(r#"{"e": null}"#);
    let patch = parse(r#"{"a": 1}"#);
    let expected = parse(r#"{"e": null, "a": 1}"#);

    json_merge_patch(&mut target, &patch);

    assert_eq!(target, expected);
}

#[test]
fn test_json_merge_patch_should_replace_array_with_object() {
    let mut target = parse(r#"{"a": []}"#);
    let patch = parse(r#"{"a": {"b": "c"}}"#);
    let expected = parse(r#"{"a": {"b": "c"}}"#);

    json_merge_patch(&mut target, &patch);

    assert_eq!(target, expected);
}

#[test]
fn test_json_merge_patch_should_merge_objects_in_array() {
    let mut target = parse(r#"[{"a": "b"}, {"c": "d"}]"#);
    let patch = parse(r#"{"1": {"e": "f"}}"#);
    let expected = parse(r#"[{"a": "b"}, {"c": "d", "e": "f"}]"#);

    json_merge_patch(&mut target, &patch);

    assert_eq!(target, expected);
}

#[test]
fn test_json_merge_patch_should_replace_object_with_array() {
    let mut target = parse(r#"{"a": {"b": "c"}}"#);
    let patch = parse(r#"{"a": []}"#);
    let expected = parse(r#"{"a": []}"#);

    json_merge_patch(&mut target, &patch);

    assert_eq!(target, expected);
}

#[test]
fn test_json_merge_patch_should_merge_arrays() {
    let mut target = parse(r#"["a", "b"]"#);
    let patch = parse(r#"["c", "d"]"#);
    let expected = parse(r#"["c", "d"]"#);

    json_merge_patch(&mut target, &patch);

    assert_eq!(target, expected);
}

#[test]
fn test_json_merge_patch_should_remove_key_from_object() {
    let mut target = parse(r#"{"a": "b"}"#);
    let patch = parse(r#"{"a": null}"#);
    let expected = parse(r#"{}"#);

    json_merge_patch(&mut target, &patch);

    assert_eq!(target, expected);
}

#[test]
fn test_json_merge_patch_should_remove_index_from_array() {
    let mut target = parse(r#"["a", "b"]"#);
    let patch = parse(r#"{"1": null}"#);
    let expected = parse(r#"["a"]"#);

    json_merge_patch(&mut target, &patch);

    assert_eq!(target, expected);
}

#[test]
fn test_json_merge_patch_should_remove_array_element() {
    let mut target = parse(r#"[1, 2, 3]"#);
    let patch = parse(r#"[null, 2]"#);
    let expected = parse(r#"[2]"#);

    json_merge_patch(&mut target, &patch);

    assert_eq!(target, expected);
}

#[test]
fn growth_beyond_bounds_pads_with_nulls() {
    let mut target = parse(r#"["a"]"#);
    let patch = parse(r#"{"3": "x"}"#);

    json_merge_patch(&mut target, &patch);

    assert_eq!(target, parse(r#"["a", null, null, "x"]"#));
}

#[test]
fn index_at_the_end_appends_without_padding() {
    let mut target = parse(r#"["a"]"#);
    let patch = parse(r#"{"1": "x"}"#);

    json_merge_patch(&mut target, &patch);

    assert_eq!(target, parse(r#"["a", "x"]"#));
}

#[test]
fn appended_value_is_copied_as_it_is() {
    let mut target = parse(r#"[]"#);
    let patch = parse(r#"{"0": {"a": null, "b": [null, 1]}}"#);

    json_merge_patch(&mut target, &patch);

    assert_eq!(target, parse(r#"[{"a": null, "b": [null, 1]}]"#));
}

#[test]
fn null_beyond_bounds_is_appended_after_padding() {
    let mut target = parse(r#"["a"]"#);
    let patch = parse(r#"{"2": null}"#);

    json_merge_patch(&mut target, &patch);

    assert_eq!(target, parse(r#"["a", null, null]"#));
}

#[test]
fn non_numeric_key_turns_array_into_object() {
    let mut target = parse(r#"[1, 2, 3]"#);
    let patch = parse(r#"{"b": "c"}"#);

    json_merge_patch(&mut target, &patch);

    assert_eq!(target, parse(r#"{"b": "c"}"#));
}

#[test]
fn one_non_numeric_key_among_indices_turns_array_into_object() {
    let mut target = parse(r#"[1, 2, 3]"#);
    let patch = parse(r#"{"0": "x", "b": "c"}"#);

    json_merge_patch(&mut target, &patch);

    assert_eq!(target, parse(r#"{"0": "x", "b": "c"}"#));
}

#[test]
fn key_too_large_for_an_index_turns_array_into_object() {
    let mut target = parse(r#"[1, 2, 3]"#);
    let patch = parse(r#"{"340282366920938463463374607431768211456": "x"}"#);

    json_merge_patch(&mut target, &patch);

    assert_eq!(target, parse(r#"{"340282366920938463463374607431768211456": "x"}"#));
}

#[test]
fn negative_key_turns_array_into_object() {
    let mut target = parse(r#"[1, 2, 3]"#);
    let patch = parse(r#"{"-0": "x"}"#);

    json_merge_patch(&mut target, &patch);

    assert_eq!(target, parse(r#"{"-0": "x"}"#));
}

#[test]
fn key_with_plus_sign_addresses_an_index() {
    let mut target = parse(r#"["a", "b"]"#);
    let patch = parse(r#"{"+1": "x"}"#);

    json_merge_patch(&mut target, &patch);

    assert_eq!(target, parse(r#"["a", "x"]"#));
}

#[test]
fn key_with_leading_zeros_addresses_an_index() {
    let mut target = parse(r#"["a", "b"]"#);
    let patch = parse(r#"{"001": "x"}"#);

    json_merge_patch(&mut target, &patch);

    assert_eq!(target, parse(r#"["a", "x"]"#));
}

#[test]
fn index_keys_are_applied_in_key_order() {
    let mut target = parse(r#"[0, 1, 2]"#);
    let patch = parse(r#"{"2": null, "10": "x"}"#);

    json_merge_patch(&mut target, &patch);

    assert_eq!(target, parse(r#"[0, 1, null, null, null, null, null, null, null, "x"]"#));
}

#[test]
fn removal_shifts_the_items_behind() {
    let mut target = parse(r#"["a", "b", "c", "d"]"#);
    let patch = parse(r#"{"0": null, "1": null}"#);

    json_merge_patch(&mut target, &patch);

    assert_eq!(target, parse(r#"["b", "d"]"#));
}

#[test]
fn empty_object_patch_keeps_an_array() {
    let mut target = parse(r#"[1, null, 3]"#);
    let patch = parse(r#"{}"#);

    json_merge_patch(&mut target, &patch);

    assert_eq!(target, parse(r#"[1, null, 3]"#));
}

#[test]
fn empty_object_patch_turns_a_scalar_into_an_empty_object() {
    let mut target = parse(r#""text""#);
    let patch = parse(r#"{}"#);

    json_merge_patch(&mut target, &patch);

    assert_eq!(target, parse(r#"{}"#));
}

#[test]
fn index_keys_on_an_object_target_are_field_names() {
    let mut target = parse(r#"{"0": "a"}"#);
    let patch = parse(r#"{"0": null, "1": "b"}"#);

    json_merge_patch(&mut target, &patch);

    assert_eq!(target, parse(r#"{"1": "b"}"#));
}

#[test]
fn index_keys_on_a_scalar_target_are_field_names() {
    let mut target = parse(r#"7"#);
    let patch = parse(r#"{"1": "b"}"#);

    json_merge_patch(&mut target, &patch);

    assert_eq!(target, parse(r#"{"1": "b"}"#));
}

#[test]
fn plain_patch_replaces_any_target() {
    let patches = [r#"null"#, r#"true"#, r#"false"#, r#"12"#, r#"-3"#, r#"2.5"#, r#""s""#];
    let targets = [r#"null"#, r#"1"#, r#""t""#, r#"[1, 2]"#, r#"{"a": {"b": 1}}"#];
    for patch_text in patches {
        for target_text in targets {
            let mut target = parse(target_text);
            let patch = parse(patch_text);
            json_merge_patch(&mut target, &patch);
            assert_eq!(target, parse(patch_text));
        }
    }
}

#[test]
fn patch_into_empty_object_gives_the_fields_of_the_patch() {
    let mut target = parse(r#"{}"#);
    let patch = parse(r#"{"a": 1, "b": "two", "c": [null, 3], "d": {"e": null, "f": true}}"#);

    json_merge_patch(&mut target, &patch);

    assert_eq!(target, parse(r#"{"a": 1, "b": "two", "c": [3], "d": {"f": true}}"#));
}

#[test]
fn null_field_for_an_absent_key_changes_nothing() {
    let mut target = parse(r#"{"a": 1}"#);
    let patch = parse(r#"{"b": null}"#);

    json_merge_patch(&mut target, &patch);

    assert_eq!(target, parse(r#"{"a": 1}"#));
}

#[test]
fn array_patch_drops_nulls_and_keeps_the_order() {
    let targets = [r#"null"#, r#""t""#, r#"[9, 9, 9, 9, 9, 9]"#, r#"{"a": 1}"#];
    for target_text in targets {
        let mut target = parse(target_text);
        let patch = parse(r#"[null, 3, null, "a", {"k": null}, [null], null, 1]"#);
        json_merge_patch(&mut target, &patch);
        assert_eq!(target, parse(r#"[3, "a", {"k": null}, [null], 1]"#));
    }
}

#[test]
fn array_patch_of_nulls_gives_an_empty_array() {
    let mut target = parse(r#"{"a": 1}"#);
    let patch = parse(r#"[null, null]"#);

    json_merge_patch(&mut target, &patch);

    assert_eq!(target, parse(r#"[]"#));
}

#[test]
fn merging_twice_gives_what_merging_once_gives() {
    let cases = [
        (r#"{"a": "b", "c": {"d": "e", "f": "g"}}"#, r#"{"a": "z", "c": {"f": null}, "n": {"m": [null, 1]}}"#),
        (r#"[1, 2, 3]"#, r#"{"b": "c"}"#),
        (r#"[{"a": "b"}, {"c": "d"}]"#, r#"{"1": {"e": "f"}, "0": {"a": null}}"#),
        (r#""t""#, r#"[null, 1]"#),
        (r#"{"a": [1, 2]}"#, r#"{"a": {"1": "x"}}"#),
    ];
    for (target_text, patch_text) in cases {
        let mut once = parse(target_text);
        let patch = parse(patch_text);
        json_merge_patch(&mut once, &patch);
        let mut twice = once.clone();
        json_merge_patch(&mut twice, &patch);
        assert_eq!(twice, once);
    }
}

#[test]
fn removing_by_index_twice_removes_two_items() {
    let mut target = parse(r#"["a", "b", "c"]"#);
    let patch = parse(r#"{"0": null}"#);

    json_merge_patch(&mut target, &patch);
    assert_eq!(target, parse(r#"["b", "c"]"#));

    json_merge_patch(&mut target, &patch);
    assert_eq!(target, parse(r#"["c"]"#));
}

#[test]
fn appended_object_is_merged_at_the_second_time() {
    let mut target = parse(r#"["x"]"#);
    let patch = parse(r#"{"1": {"a": null}}"#);

    json_merge_patch(&mut target, &patch);
    assert_eq!(target, parse(r#"["x", {"a": null}]"#));

    json_merge_patch(&mut target, &patch);
    assert_eq!(target, parse(r#"["x", {}]"#));
}

#[test]
fn patch_is_left_as_it_was() {
    let mut target = parse(r#"{"a": [1, 2]}"#);
    let patch = parse(r#"{"a": {"0": null, "5": {"b": null}}, "c": [null]}"#);
    let before = patch.clone();

    json_merge_patch(&mut target, &patch);

    assert_eq!(patch, before);
}

#[test]
fn numbers_are_carried_over_unchanged() {
    let mut target = parse(r#"{"a": 1}"#);
    let patch = parse(r#"{"a": -7, "b": 1.5, "c": 18446744073709551615, "d": [0.1, null, 1e300]}"#);

    json_merge_patch(&mut target, &patch);

    assert_eq!(target, parse(r#"{"a": -7, "b": 1.5, "c": 18446744073709551615, "d": [0.1, 1e300]}"#));
    assert_ne!(target, parse(r#"{"a": 7, "b": 1.5, "c": 18446744073709551615, "d": [0.1, 1e300]}"#));
}

#[test]
fn nested_array_in_array_is_patched_by_index() {
    let mut target = parse(r#"[[1, 2], [3, 4]]"#);
    let patch = parse(r#"{"1": {"0": null, "3": 5}}"#);

    json_merge_patch(&mut target, &patch);

    assert_eq!(target, parse(r#"[[1, 2], [4, null, null, 5]]"#));
}

#[test]
fn two_keys_for_one_index_are_merged_one_after_the_other() {
    let mut target = parse(r#"[0, ["a"]]"#);
    let patch = parse(r#"{"+1": {"0": "p"}, "1": {"k": "q"}}"#);

    json_merge_patch(&mut target, &patch);
    assert_eq!(target, parse(r#"[0, {"k": "q"}]"#));

    json_merge_patch(&mut target, &patch);
    assert_eq!(target, parse(r#"[0, {"0": "p", "k": "q"}]"#));
}
