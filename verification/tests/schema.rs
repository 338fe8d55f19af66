use schema_clean::clean::{clean_json_schema_recursive, collect_notes, join_notes};
use schema_clean::flatten::{flatten_refs, merge_absent};
use schema_clean::json::{find_key, remove_key};
use schema_clean::schema::take_definitions;
use schema_clean::text::{ref_name, render};
use schema_clean::{clean_json_schema, Json};

fn text(s: &str) -> Json {
    Json::String(s.to_string())
}

fn whole(n: i64) -> Json {
    Json::Number(serde_json::Number::from(n))
}

fn fraction(x: f64) -> Json {
    Json::Number(serde_json::Number::from_f64(x).unwrap())
}

fn list(items: Vec<Json>) -> Json {
    Json::Array(items)
}

fn members(pairs: Vec<(&str, Json)>) -> Vec<(String, Json)> {
    pairs.into_iter().map(|(k, v)| (k.to_string(), v)).collect()
}

fn object(pairs: Vec<(&str, Json)>) -> Json {
    Json::Object(members(pairs))
}

fn at<'a>(value: &'a Json, path: &[&str]) -> &'a Json {
    let mut here = value;
    for key in path {
        here = here.get(key).unwrap();
    }
    here
}

fn cleaned(mut value: Json) -> Json {
    clean_json_schema(&mut value);
    value
}

#[test]
fn test_clean_json_schema_draft_2020_12() {
    let mut schema = object(vec![
        ("$schema", text("http://json-schema.org/draft-07/schema#")),
        ("type", text("object")),
        (
            "properties",
            object(vec![
                (
                    "location",
                    object(vec![
                        ("type", text("string")),
                        ("minLength", whole(1)),
                        ("format", text("city")),
                    ]),
                ),
                (
                    "unit",
                    object(vec![
                        ("type", list(vec![text("string"), text("null")])),
                        ("default", text("celsius")),
                    ]),
                ),
            ]),
        ),
        ("required", list(vec![text("location")])),
    ]);

    clean_json_schema(&mut schema);

    assert_eq!(*at(&schema, &["type"]), text("object"));
    assert_eq!(*at(&schema, &["properties", "location", "type"]), text("string"));

    assert!(at(&schema, &["properties", "location"]).get("minLength").is_none());
    assert!(at(&schema, &["properties", "location"]).get("format").is_none());
    assert!(at(&schema, &["properties", "location", "description"])
        .as_str()
        .unwrap()
        .contains("minLen: 1"));

    assert_eq!(
        *at(&schema, &["properties", "unit", "type"]),
        list(vec![text("string"), text("null")])
    );

    assert!(schema.get("$schema").is_none());
}

#[test]
fn test_flatten_refs() {
    let mut schema = object(vec![
        (
            "$defs",
            object(vec![(
                "Address",
                object(vec![
                    ("type", text("object")),
                    ("properties", object(vec![("city", object(vec![("type", text("string"))]))])),
                ]),
            )]),
        ),
        ("properties", object(vec![("home", object(vec![("$ref", text("#/$defs/Address"))]))])),
    ]);

    clean_json_schema(&mut schema);

    assert_eq!(*at(&schema, &["properties", "home", "type"]), text("object"));
    assert_eq!(
        *at(&schema, &["properties", "home", "properties", "city", "type"]),
        text("string")
    );
}

#[test]
fn whole_document_is_rewritten_exactly() {
    let schema = object(vec![
        ("$schema", text("...")),
        ("type", text("object")),
        (
            "properties",
            object(vec![(
                "location",
                object(vec![
                    ("type", text("string")),
                    ("minLength", whole(1)),
                    ("format", text("city")),
                ]),
            )]),
        ),
        ("required", list(vec![text("location")])),
    ]);
    let expected = object(vec![
        ("type", text("object")),
        (
            "properties",
            object(vec![(
                "location",
                object(vec![
                    ("type", text("string")),
                    ("description", text(" [Validation: minLen: 1]")),
                ]),
            )]),
        ),
        ("required", list(vec![text("location")])),
    ]);
    assert_eq!(cleaned(schema), expected);
}

#[test]
fn scalars_pass_through() {
    assert_eq!(cleaned(Json::Null), Json::Null);
    assert_eq!(cleaned(Json::Bool(true)), Json::Bool(true));
    assert_eq!(cleaned(Json::Bool(false)), Json::Bool(false));
    assert_eq!(cleaned(whole(-7)), whole(-7));
    assert_eq!(cleaned(fraction(2.5)), fraction(2.5));
    assert_eq!(cleaned(text("$ref")), text("$ref"));
    assert_eq!(cleaned(text("MiXeD")), text("MiXeD"));
}

#[test]
fn second_pass_changes_nothing() {
    let schema = object(vec![
        ("$defs", object(vec![("Size", object(vec![("type", text("INTEGER")), ("minimum", whole(0))]))])),
        ("type", text("Object")),
        ("description", text("A box")),
        ("maxItems", whole(3)),
        (
            "properties",
            object(vec![
                ("width", object(vec![("$ref", text("#/$defs/Size"))])),
                ("tags", object(vec![("type", list(vec![text("ARRAY"), text("Null")])), ("uniqueItems", Json::Bool(true))])),
            ]),
        ),
    ]);
    let once = cleaned(schema);
    let twice = cleaned(once.clone());
    assert_eq!(twice, once);
    assert_eq!(*at(&once, &["description"]), text("A box [Validation: maxItems: 3]"));
}

#[test]
fn reference_at_the_root_can_bring_definitions_along() {
    let schema = object(vec![
        ("$ref", text("#/$defs/A")),
        (
            "$defs",
            object(vec![(
                "A",
                object(vec![("type", text("object")), ("$defs", object(vec![("B", object(vec![]))]))]),
            )]),
        ),
    ]);
    let once = cleaned(schema);
    assert_eq!(
        once,
        object(vec![("type", text("object")), ("$defs", object(vec![("B", object(vec![]))]))])
    );
    let twice = cleaned(once);
    assert_eq!(twice, object(vec![("type", text("object"))]));
}

#[test]
fn constraint_moves_into_a_new_description() {
    let node = cleaned(object(vec![("minLength", whole(1))]));
    assert!(node.get("minLength").is_none());
    assert_eq!(node, object(vec![("description", text(" [Validation: minLen: 1]"))]));
}

#[test]
fn constraints_are_appended_in_the_fixed_order() {
    let node = cleaned(object(vec![
        ("pattern", text("^a+$")),
        ("multipleOf", whole(2)),
        ("exclusiveMaximum", whole(9)),
        ("exclusiveMinimum", whole(-9)),
        ("maxItems", whole(8)),
        ("minItems", whole(7)),
        ("maximum", fraction(6.5)),
        ("minimum", whole(5)),
        ("description", text("Count")),
        ("maxLength", whole(4)),
        ("minLength", whole(3)),
    ]));
    assert_eq!(
        node,
        object(vec![(
            "description",
            text(
                "Count [Validation: minLen: 3, maxLen: 4, min: 5, max: 6.5, minItems: 7, \
                 maxItems: 8, exclMin: -9, exclMax: 9, multipleOf: 2, pattern: \"^a+$\"]"
            )
        )])
    );
}

#[test]
fn description_that_is_no_string_is_kept() {
    let node = cleaned(object(vec![("description", whole(4)), ("minimum", whole(1))]));
    assert_eq!(node, object(vec![("description", whole(4))]));
}

#[test]
fn unsupported_keywords_are_dropped_whatever_they_hold() {
    let node = cleaned(object(vec![
        ("$schema", Json::Null),
        ("additionalProperties", object(vec![("type", text("STRING"))])),
        ("enumCaseInsensitive", Json::Bool(true)),
        ("enumNormalizeWhitespace", whole(1)),
        ("uniqueItems", list(vec![])),
        ("format", text("date")),
        ("default", object(vec![])),
        ("title", text("kept")),
    ]));
    assert_eq!(node, object(vec![("title", text("kept"))]));
}

#[test]
fn union_types_are_lowercased_element_by_element() {
    let same = cleaned(object(vec![("type", list(vec![text("string"), text("null")]))]));
    assert_eq!(same, object(vec![("type", list(vec![text("string"), text("null")]))]));
    let lowered = cleaned(object(vec![("type", list(vec![text("STRING"), text("Null")]))]));
    assert_eq!(lowered, object(vec![("type", list(vec![text("string"), text("null")]))]));
    let mixed = cleaned(object(vec![("type", list(vec![text("NUMBER"), whole(3), Json::Null]))]));
    assert_eq!(mixed, object(vec![("type", list(vec![text("number"), whole(3), Json::Null]))]));
}

#[test]
fn type_of_another_shape_is_left_alone() {
    let node = cleaned(object(vec![("type", whole(3))]));
    assert_eq!(node, object(vec![("type", whole(3))]));
    let nested = cleaned(object(vec![(
        "properties",
        object(vec![("type", object(vec![("type", text("BOOLEAN"))]))]),
    )]));
    assert_eq!(
        nested,
        object(vec![("properties", object(vec![("type", object(vec![("type", text("boolean"))]))]))])
    );
}

#[test]
fn cleaning_reaches_arrays_and_their_nested_arrays() {
    let mut value = list(vec![
        object(vec![("type", text("STRING")), ("format", text("x"))]),
        list(vec![object(vec![("default", whole(1)), ("type", text("Null"))])]),
        text("FORMAT"),
    ]);
    clean_json_schema_recursive(&mut value);
    assert_eq!(
        value,
        list(vec![
            object(vec![("type", text("string"))]),
            list(vec![object(vec![("type", text("null"))])]),
            text("FORMAT"),
        ])
    );
}

#[test]
fn reference_is_replaced_and_definitions_leave_the_root() {
    let schema = cleaned(object(vec![
        (
            "$defs",
            object(vec![(
                "Address",
                object(vec![
                    ("type", text("object")),
                    ("properties", object(vec![("city", object(vec![("type", text("string"))]))])),
                ]),
            )]),
        ),
        ("home", object(vec![("$ref", text("#/$defs/Address"))])),
    ]));
    assert!(schema.get("$defs").is_none());
    assert_eq!(
        schema,
        object(vec![(
            "home",
            object(vec![
                ("type", text("object")),
                ("properties", object(vec![("city", object(vec![("type", text("string"))]))])),
            ])
        )])
    );
}

#[test]
fn unresolved_reference_leaves_an_empty_object() {
    let schema = cleaned(object(vec![
        ("$defs", object(vec![("Address", object(vec![("type", text("object"))]))])),
        ("home", object(vec![("$ref", text("#/$defs/Missing"))])),
    ]));
    assert_eq!(schema, object(vec![("home", object(vec![]))]));
}

#[test]
fn reference_to_a_definition_that_is_no_object_is_dropped() {
    let schema = cleaned(object(vec![
        ("$defs", object(vec![("Flag", Json::Bool(true))])),
        ("home", object(vec![("$ref", text("#/$defs/Flag")), ("title", text("t"))])),
    ]));
    assert_eq!(schema, object(vec![("home", object(vec![("title", text("t"))]))]));
}

#[test]
fn reference_that_is_no_string_is_dropped() {
    let schema = cleaned(object(vec![
        ("$defs", object(vec![("A", object(vec![("type", text("string"))]))])),
        ("home", object(vec![("$ref", whole(5)), ("title", text("t"))])),
    ]));
    assert_eq!(schema, object(vec![("home", object(vec![("title", text("t"))]))]));
}

#[test]
fn references_stay_where_the_root_declares_nothing() {
    let plain = cleaned(object(vec![("home", object(vec![("$ref", text("#/$defs/Missing"))]))]));
    assert_eq!(plain, object(vec![("home", object(vec![("$ref", text("#/$defs/Missing"))]))]));
    let empty = cleaned(object(vec![
        ("$defs", object(vec![])),
        ("definitions", text("none")),
        ("home", object(vec![("$ref", text("A"))])),
    ]));
    assert_eq!(empty, object(vec![("home", object(vec![("$ref", text("A"))]))]));
}

#[test]
fn local_members_win_over_referenced_ones() {
    let schema = cleaned(object(vec![
        (
            "definitions",
            object(vec![(
                "Name",
                object(vec![("type", text("STRING")), ("title", text("from definition"))]),
            )]),
        ),
        ("who", object(vec![("title", text("local")), ("$ref", text("#/definitions/Name"))])),
    ]));
    assert_eq!(
        schema,
        object(vec![("who", object(vec![("title", text("local")), ("type", text("string"))]))])
    );
}

#[test]
fn definitions_overrides_defs_on_the_same_name() {
    let schema = cleaned(object(vec![
        ("$defs", object(vec![("T", object(vec![("type", text("string"))])), ("U", object(vec![("type", text("number"))]))])),
        ("definitions", object(vec![("T", object(vec![("type", text("integer"))]))])),
        ("a", object(vec![("$ref", text("#/$defs/T"))])),
        ("b", object(vec![("$ref", text("#/$defs/U"))])),
    ]));
    assert_eq!(
        schema,
        object(vec![
            ("a", object(vec![("type", text("integer"))])),
            ("b", object(vec![("type", text("number"))])),
        ])
    );
}

#[test]
fn chains_of_references_are_followed() {
    let schema = cleaned(object(vec![
        (
            "$defs",
            object(vec![
                ("A", object(vec![("$ref", text("#/$defs/B")), ("title", text("a"))])),
                ("B", object(vec![("$ref", text("C")), ("title", text("b")), ("type", text("OBJECT"))])),
                ("C", object(vec![("items", object(vec![("$ref", text("#/$defs/D"))]))])),
                ("D", object(vec![("type", text("null")), ("maximum", whole(2))])),
            ]),
        ),
        ("x", object(vec![("$ref", text("#/$defs/A"))])),
    ]));
    assert_eq!(
        schema,
        object(vec![(
            "x",
            object(vec![
                ("title", text("a")),
                ("type", text("object")),
                (
                    "items",
                    object(vec![
                        ("type", text("null")),
                        ("description", text(" [Validation: max: 2]")),
                    ])
                ),
            ])
        )])
    );
}

#[test]
fn references_in_arrays_are_resolved_only_in_their_objects() {
    let schema = cleaned(object(vec![
        ("$defs", object(vec![("A", object(vec![("type", text("string"))]))])),
        (
            "anyOf",
            list(vec![
                object(vec![("$ref", text("#/$defs/A"))]),
                list(vec![object(vec![("$ref", text("#/$defs/A"))])]),
                text("$ref"),
            ]),
        ),
    ]));
    assert_eq!(
        schema,
        object(vec![(
            "anyOf",
            list(vec![
                object(vec![("type", text("string"))]),
                list(vec![object(vec![("$ref", text("#/$defs/A"))])]),
                text("$ref"),
            ])
        )])
    );
}

#[test]
fn definitions_that_refer_to_themselves_end() {
    let schema = cleaned(object(vec![
        (
            "$defs",
            object(vec![(
                "Node",
                object(vec![
                    ("type", text("object")),
                    ("properties", object(vec![("next", object(vec![("$ref", text("#/$defs/Node"))]))])),
                ]),
            )]),
        ),
        ("$ref", text("#/$defs/Node")),
    ]));
    assert_eq!(
        schema,
        object(vec![
            ("type", text("object")),
            ("properties", object(vec![("next", object(vec![]))])),
        ])
    );
}

#[test]
fn root_that_is_no_object_is_only_cleaned() {
    let value = cleaned(list(vec![object(vec![
        ("$defs", object(vec![("A", object(vec![]))])),
        ("$ref", text("A")),
        ("type", text("STRING")),
    ])]));
    assert_eq!(
        value,
        list(vec![object(vec![
            ("$defs", object(vec![("A", object(vec![]))])),
            ("$ref", text("A")),
            ("type", text("string")),
        ])])
    );
}

#[test]
fn names_of_references() {
    assert_eq!(ref_name("#/$defs/Foo"), "Foo");
    assert_eq!(ref_name("#/definitions/a/b"), "b");
    assert_eq!(ref_name("Foo"), "Foo");
    assert_eq!(ref_name("Foo/"), "");
    assert_eq!(ref_name(""), "");
    assert_eq!(ref_name("/"), "");
    assert_eq!(ref_name("#/$defs/caf\u{e9}\u{1F600}"), "caf\u{e9}\u{1F600}");
}

#[test]
fn values_render_as_compact_json() {
    assert_eq!(render(&Json::Null), "null");
    assert_eq!(render(&Json::Bool(true)), "true");
    assert_eq!(render(&whole(-12)), "-12");
    assert_eq!(render(&fraction(0.5)), "0.5");
    assert_eq!(render(&text("a\"b\\c\n")), "\"a\\\"b\\\\c\\n\"");
    assert_eq!(render(&list(vec![whole(1), text("x"), Json::Null])), "[1,\"x\",null]");
    assert_eq!(
        render(&object(vec![("b", whole(1)), ("a", list(vec![]))])),
        "{\"a\":[],\"b\":1}"
    );
}

#[test]
fn notes_render_the_values_as_they_were() {
    let node = members(vec![
        ("pattern", text("^\\d+$")),
        ("minimum", object(vec![("format", text("x"))])),
    ]);
    let notes = collect_notes(&node);
    assert_eq!(notes, vec!["min: {\"format\":\"x\"}".to_string(), "pattern: \"^\\\\d+$\"".to_string()]);
    assert_eq!(join_notes(&notes), "min: {\"format\":\"x\"}, pattern: \"^\\\\d+$\"");
    assert_eq!(join_notes(&vec![]), "");
    assert_eq!(join_notes(&vec!["one".to_string()]), "one");
}

#[test]
fn lookups_take_the_first_member_and_removals_take_all() {
    let mut node = members(vec![("a", whole(1)), ("b", whole(2)), ("a", whole(3))]);
    assert_eq!(find_key(&node, &"a".to_string()), Some(0));
    assert_eq!(find_key(&node, &"b".to_string()), Some(1));
    assert_eq!(find_key(&node, &"c".to_string()), None);
    assert_eq!(remove_key(&mut node, &"a".to_string()), Some(whole(1)));
    assert_eq!(node, members(vec![("b", whole(2))]));
    assert_eq!(remove_key(&mut node, &"a".to_string()), None);
    assert_eq!(node, members(vec![("b", whole(2))]));
}

#[test]
fn merging_appends_what_is_absent() {
    let mut node = members(vec![("a", whole(1))]);
    merge_absent(&mut node, members(vec![("b", whole(2)), ("a", whole(3)), ("b", whole(4))]));
    assert_eq!(node, members(vec![("a", whole(1)), ("b", whole(2))]));
}

#[test]
fn definitions_are_taken_from_the_root() {
    let mut root = members(vec![
        ("$defs", object(vec![("A", whole(1))])),
        ("type", text("object")),
        ("definitions", object(vec![("B", whole(2))])),
    ]);
    let table = take_definitions(&mut root);
    assert_eq!(table, members(vec![("B", whole(2)), ("A", whole(1))]));
    assert_eq!(root, members(vec![("type", text("object"))]));
}

#[test]
fn depth_bounds_the_nesting_of_resolutions() {
    let table = members(vec![("A", object(vec![("x", object(vec![("$ref", text("A"))]))]))]);
    let mut shallow = members(vec![("$ref", text("A"))]);
    flatten_refs(&mut shallow, &table, 0);
    assert_eq!(shallow, members(vec![]));
    let mut deep = members(vec![("$ref", text("A"))]);
    flatten_refs(&mut deep, &table, 2);
    assert_eq!(
        deep,
        members(vec![("x", object(vec![("x", object(vec![]))]))])
    );
}

#[test]
fn clone_is_deep() {
    let value = object(vec![("a", list(vec![whole(1), object(vec![("b", text("c"))])]))]);
    let copy = value.clone();
    assert_eq!(copy, value);
}

#[test]
fn accessors_read_objects_and_strings() {
    let value = object(vec![("a", text("x")), ("a", text("y"))]);
    assert_eq!(value.get("a"), Some(&text("x")));
    assert_eq!(value.get("b"), None);
    assert_eq!(text("x").get("a"), None);
    assert_eq!(text("x").as_str(), Some("x"));
    assert_eq!(whole(1).as_str(), None);
}
