use asmo::json::{JsonNumber, JsonValue};
use asmo::router::{
    enumerate_endpoints, is_wildcard, navigate, resolve_comma_fields, resolve_request, split_path,
};

fn num(n: u64) -> JsonValue {
    JsonValue::Number(JsonNumber::PosInt(n))
}

fn float(x: f64) -> JsonValue {
    JsonValue::Number(JsonNumber::Float(x.to_bits()))
}

fn text(s: &str) -> JsonValue {
    JsonValue::String(s.to_string())
}

fn obj(entries: Vec<(&str, JsonValue)>) -> JsonValue {
    JsonValue::Object(entries.into_iter().map(|(k, v)| (k.to_string(), v)).collect())
}

fn arr(items: Vec<JsonValue>) -> JsonValue {
    JsonValue::Array(items)
}

fn cores_tree() -> JsonValue {
    obj(vec![(
        "cores",
        arr(vec![
            obj(vec![("name", text("cpu0")), ("usage", float(10.0))]),
            obj(vec![("name", text("cpu1")), ("usage", float(20.0))]),
        ]),
    )])
}

#[test]
fn wildcard_detection() {
    assert!(is_wildcard("*"));
    assert!(is_wildcard("all"));
    assert!(!is_wildcard("cpu0"));
    assert!(!is_wildcard(""));
}

#[test]
fn resolve_single_field() {
    let tree = obj(vec![("battery_level", num(85)), ("cpu_temp", float(42.0))]);
    let result = resolve_request(&tree, &["battery_level"]);
    assert_eq!(result, Some(obj(vec![("battery_level", num(85))])));
}

#[test]
fn resolve_comma_fields_extracts_multiple() {
    let tree = obj(vec![("a", num(1)), ("b", num(2)), ("c", num(3))]);
    let result = resolve_comma_fields(&tree, "a,c");
    assert_eq!(result, Some(obj(vec![("a", num(1)), ("c", num(3))])));
}

#[test]
fn resolve_comma_fields_none_for_missing() {
    let tree = obj(vec![("a", num(1))]);
    assert_eq!(resolve_comma_fields(&tree, "x,y"), None);
}

#[test]
fn resolve_not_found_returns_none() {
    let tree = obj(vec![("a", num(1))]);
    assert_eq!(resolve_request(&tree, &["nonexistent"]), None);
}

#[test]
fn resolve_wildcard_collects_field() {
    let tree = cores_tree();
    let result = resolve_request(&tree, &["cores", "*", "usage"]).unwrap();
    assert!(matches!(result, JsonValue::Array(_)));
    assert_eq!(
        result,
        arr(vec![obj(vec![("usage", float(10.0))]), obj(vec![("usage", float(20.0))])])
    );
}

#[test]
fn resolve_wildcard_all_items() {
    let tree = obj(vec![(
        "items",
        arr(vec![
            obj(vec![("name", text("a")), ("val", num(1))]),
            obj(vec![("name", text("b")), ("val", num(2))]),
        ]),
    )]);
    let result = resolve_request(&tree, &["items", "all"]).unwrap();
    match &result {
        JsonValue::Array(items) => assert_eq!(items.len(), 2),
        _ => panic!("expected an array"),
    }
}

#[test]
fn navigate_nested_path() {
    let tree = obj(vec![("a", obj(vec![("b", obj(vec![("c", num(42))]))]))]);
    assert_eq!(navigate(&tree, &["a", "b", "c"]), Some(num(42)));
}

#[test]
fn navigate_array_by_name() {
    let tree = arr(vec![
        obj(vec![("name", text("cpu0")), ("usage", float(10.0))]),
        obj(vec![("name", text("cpu1")), ("usage", float(20.0))]),
    ]);
    let result = navigate(&tree, &["cpu1", "usage"]);
    assert_eq!(result, Some(float(20.0)));
}

#[test]
fn enumerate_endpoints_discovers_all() {
    let tree = obj(vec![("battery_level", num(100)), ("cpu_temp", float(42.0))]);
    let mut out = vec![];
    enumerate_endpoints(&tree, "", &mut out);
    assert!(out.contains(&"/battery_level".to_owned()));
    assert!(out.contains(&"/cpu_temp".to_owned()));
    assert_eq!(out.len(), 2);
}

#[test]
fn enumerate_endpoints_with_array() {
    let tree = obj(vec![(
        "cores",
        arr(vec![obj(vec![("name", text("cpu0")), ("usage", float(10.0))])]),
    )]);
    let mut out = vec![];
    enumerate_endpoints(&tree, "", &mut out);
    assert!(out.contains(&"/cores".to_owned()));
    assert!(out.contains(&"/cores/cpu0".to_owned()));
    assert!(out.contains(&"/cores/cpu0/usage".to_owned()));
}

#[test]
fn resolve_handles_null_sensor_values() {
    let tree = obj(vec![("cpu_temp", JsonValue::Null), ("battery_level", num(85))]);
    let result = resolve_request(&tree, &["cpu_temp"]);
    assert_eq!(result, Some(obj(vec![("cpu_temp", JsonValue::Null)])));
}

#[test]
fn comma_fields_keep_the_requested_order() {
    let tree = obj(vec![("name", text("cpu0")), ("usage", float(28.5)), ("model_name", text("A510"))]);
    let result = resolve_request(&tree, &["usage,name, model_name,,"]);
    assert_eq!(
        result,
        Some(obj(vec![
            ("usage", float(28.5)),
            ("name", text("cpu0")),
            ("model_name", text("A510"))
        ]))
    );
}

#[test]
fn comma_fields_on_array_pick_items_by_name() {
    let tree = cores_tree();
    let result = resolve_request(&tree, &["cores", "cpu1,cpu9"]);
    assert_eq!(
        result,
        Some(obj(vec![("cpu1", obj(vec![("name", text("cpu1")), ("usage", float(20.0))]))]))
    );
}

#[test]
fn wildcard_with_several_fields() {
    let tree = cores_tree();
    let result = resolve_request(&tree, &["cores", "all", "usage,name"]);
    assert_eq!(
        result,
        Some(arr(vec![
            obj(vec![("usage", float(10.0)), ("name", text("cpu0"))]),
            obj(vec![("usage", float(20.0)), ("name", text("cpu1"))]),
        ]))
    );
}

#[test]
fn wildcard_needs_an_array_and_a_result() {
    let tree = cores_tree();
    assert_eq!(resolve_request(&tree, &["*"]), None);
    assert_eq!(resolve_request(&tree, &["cores", "*", "missing"]), None);
}

#[test]
fn core_by_name_and_field() {
    let tree = cores_tree();
    assert_eq!(
        resolve_request(&tree, &["cores", "cpu0"]),
        Some(obj(vec![("name", text("cpu0")), ("usage", float(10.0))]))
    );
    assert_eq!(
        resolve_request(&tree, &["cores", "cpu1", "usage"]),
        Some(obj(vec![("usage", float(20.0))]))
    );
    assert_eq!(resolve_request(&tree, &["cores", "cpu2"]), None);
}

#[test]
fn empty_path_is_the_whole_tree() {
    let tree = cores_tree();
    assert_eq!(resolve_request(&tree, &[]), Some(cores_tree()));
}

#[test]
fn split_path_drops_empty_segments() {
    assert_eq!(split_path("cores//cpu0/usage/"), vec!["cores", "cpu0", "usage"]);
    assert_eq!(split_path(""), Vec::<String>::new());
}

#[test]
fn listed_endpoints_resolve() {
    let tree = obj(vec![
        ("battery_level", num(100)),
        ("device", obj(vec![("model", text("A065"))])),
        (
            "cores",
            arr(vec![
                obj(vec![("name", text("cpu0")), ("usage", float(28.5))]),
                obj(vec![("name", text("cpu1")), ("usage", float(14.2))]),
            ]),
        ),
    ]);
    let mut out = vec![];
    enumerate_endpoints(&tree, "", &mut out);
    assert_eq!(
        out,
        vec![
            "/battery_level",
            "/device",
            "/device/model",
            "/cores",
            "/cores/cpu0",
            "/cores/cpu0/usage",
            "/cores/cpu1",
            "/cores/cpu1/usage"
        ]
    );
    for p in &out {
        let segs = split_path(p);
        let refs: Vec<&str> = segs.iter().map(|s| s.as_str()).collect();
        assert!(resolve_request(&tree, &refs).is_some(), "{p}");
    }
}

#[test]
fn star_and_all_agree() {
    let tree = cores_tree();
    for rest in [vec![], vec!["usage"], vec!["name,usage"], vec!["missing"]] {
        let mut a = vec!["cores", "*"];
        a.extend(rest.iter());
        let mut b = vec!["cores", "all"];
        b.extend(rest.iter());
        assert_eq!(resolve_request(&tree, &a), resolve_request(&tree, &b));
    }
}

#[test]
fn duplicate_listed_fields_appear_once() {
    let tree = obj(vec![("a", num(1)), ("b", num(2))]);
    assert_eq!(resolve_comma_fields(&tree, "b,a,b"), Some(obj(vec![("b", num(2)), ("a", num(1))])));
}

#[test]
fn missing_fields_are_dropped_and_first_mention_kept() {
    let tree = obj(vec![("a", num(1)), ("b", num(2))]);
    assert_eq!(
        resolve_comma_fields(&tree, "x, b ,a,x,b"),
        Some(obj(vec![("b", num(2)), ("a", num(1))]))
    );
    assert_eq!(resolve_comma_fields(&tree, ",, ,"), None);
}

#[test]
fn star_and_all_agree_at_any_depth() {
    let tree = obj(vec![(
        "groups",
        arr(vec![
            obj(vec![("name", text("little")), ("cores", cores_tree())]),
            obj(vec![("name", text("big")), ("cores", obj(vec![("cores", arr(vec![]))]))]),
        ]),
    )]);
    let forms = [
        vec!["groups", "*", "cores", "cores", "*", "usage"],
        vec!["groups", "*", "cores", "cores", "all", "usage"],
        vec!["groups", "all", "cores", "cores", "*", "usage"],
        vec!["groups", "all", "cores", "cores", "all", "usage"],
    ];
    let expected = Some(arr(vec![arr(vec![
        obj(vec![("usage", float(10.0))]),
        obj(vec![("usage", float(20.0))]),
    ])]));
    for path in forms.iter() {
        assert_eq!(resolve_request(&tree, path), expected);
    }
}

#[test]
fn answers_hold_each_key_once() {
    let tree = cores_tree();
    let result = resolve_request(&tree, &["cores", "*", "usage,name,usage"]).unwrap();
    assert_eq!(
        result,
        arr(vec![
            obj(vec![("usage", float(10.0)), ("name", text("cpu0"))]),
            obj(vec![("usage", float(20.0)), ("name", text("cpu1"))]),
        ])
    );
}
