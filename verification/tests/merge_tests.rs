use json_merger::TreeValue;
use json_merger::applier::apply_plan;
use json_merger::applier::execute_plan_tree;
use json_merger::builder::create_plan;
use json_merger::builder::create_scaffold_plan;
use json_merger::builder::generate_plan_tree;
use json_merger::builder::get_item_identity;
use json_merger::plan::Status;

fn txt(s: &str) -> TreeValue {
    TreeValue::Text(s.to_string())
}

fn num(n: i64) -> TreeValue {
    TreeValue::Number(n)
}

fn arr(items: Vec<TreeValue>) -> TreeValue {
    TreeValue::Array(items)
}

/// Builds an object; callers list the fields in ascending key order.
fn obj(fields: Vec<(&str, TreeValue)>) -> TreeValue {
    TreeValue::Object(fields.into_iter().map(|(k, v)| (k.to_string(), v)).collect())
}

fn keys(ks: &[&str]) -> Vec<String> {
    ks.iter().map(|k| k.to_string()).collect()
}

/// A serialized plan node without a prior value.
fn plan_node(status: &str, value: TreeValue) -> TreeValue {
    obj(vec![("_status", txt(status)), ("_value", value)])
}

/// A serialized plan node carrying a prior value; `_old_value` sorts first.
fn plan_node_old(status: &str, value: TreeValue, old: TreeValue) -> TreeValue {
    obj(vec![("_old_value", old), ("_status", txt(status)), ("_value", value)])
}

fn field<'a>(t: &'a TreeValue, key: &str) -> &'a TreeValue {
    match t {
        TreeValue::Object(fields) => {
            for (k, v) in fields {
                if k.as_str() == key {
                    return v;
                }
            }
            panic!("missing field {}", key);
        }
        _ => panic!("not an object"),
    }
}

fn status_of(plan: &TreeValue) -> String {
    match field(plan, "_status") {
        TreeValue::Text(s) => s.clone(),
        _ => panic!("status is not text"),
    }
}

fn elem(t: &TreeValue, i: usize) -> &TreeValue {
    match t {
        TreeValue::Array(items) => &items[i],
        _ => panic!("not an array"),
    }
}

#[test]
fn scalar_keep() {
    let plan = create_plan(&num(1), &num(1), &keys(&[]));
    let tree = plan.to_tree();
    assert!(tree.deep_eq(&plan_node("keep", num(1))));
    let applied = apply_plan(&tree).expect("keep node applies");
    assert!(applied.deep_eq(&num(1)));
}

#[test]
fn scalar_overwrite_round_trip() {
    let a = obj(vec![("x", num(1))]);
    let b = obj(vec![("x", num(2))]);
    let plan = generate_plan_tree(&a, &b, &keys(&[]));
    let expected = plan_node(
        "merge",
        obj(vec![("x", plan_node_old("overwrite", num(2), num(1)))]),
    );
    assert!(plan.deep_eq(&expected));
    let applied = apply_plan(&plan).expect("merge node applies");
    assert!(applied.deep_eq(&b));
}

#[test]
fn pure_addition_round_trip() {
    let a = obj(vec![("a", num(1))]);
    let b = obj(vec![("a", num(1)), ("k", num(2))]);
    let plan = generate_plan_tree(&a, &b, &keys(&[]));
    let node_for_k = field(field(&plan, "_value"), "k");
    assert_eq!(status_of(node_for_k), "add");
    let applied = apply_plan(&plan).expect("merge node applies");
    assert!(applied.deep_eq(&b));
}

#[test]
fn array_identity_matching() {
    let e1 = obj(vec![("id", txt("1")), ("n", txt("a"))]);
    let e2 = obj(vec![("id", txt("2")), ("n", txt("b"))]);
    let e3 = obj(vec![("id", txt("3")), ("n", txt("c"))]);
    let a = arr(vec![e1.deep_clone(), e2.deep_clone()]);
    let b = arr(vec![e2.deep_clone(), e1.deep_clone(), e3.deep_clone()]);
    let ik = keys(&["id"]);
    let plan = generate_plan_tree(&a, &b, &ik);
    let nodes = field(&plan, "_value");
    // Matched elements are compared in place (their fields all kept); the
    // unmatched element of the second array is added at the end.
    assert_eq!(status_of(elem(nodes, 0)), "merge");
    assert_eq!(status_of(elem(nodes, 1)), "merge");
    assert_eq!(status_of(elem(nodes, 2)), "add");
    assert_eq!(status_of(field(field(elem(nodes, 0), "_value"), "id")), "keep");
    assert_eq!(status_of(field(field(elem(nodes, 0), "_value"), "n")), "keep");
    // Output order: the first array's survivors in its order, then additions.
    let applied = apply_plan(&plan).expect("merge node applies");
    assert!(applied.deep_eq(&arr(vec![e1, e2, e3])));
}

#[test]
fn manual_delete_removes_entry() {
    let plan = plan_node(
        "merge",
        obj(vec![
            ("x", plan_node("delete", num(1))),
            ("y", plan_node("keep", num(2))),
        ]),
    );
    let applied = apply_plan(&plan).expect("merge node applies");
    assert!(applied.deep_eq(&obj(vec![("y", num(2))])));
}

#[test]
fn manual_delete_in_array() {
    let plan = plan_node(
        "merge",
        arr(vec![
            plan_node("keep", num(1)),
            plan_node("delete", num(2)),
            plan_node("keep", num(3)),
        ]),
    );
    let applied = apply_plan(&plan).expect("merge node applies");
    assert!(applied.deep_eq(&arr(vec![num(1), num(3)])));
}

#[test]
fn delete_at_root_yields_empty_object() {
    let plan = plan_node("delete", obj(vec![("x", num(1))]));
    assert!(apply_plan(&plan).is_none());
    let out = execute_plan_tree(&plan);
    assert!(out.deep_eq(&obj(vec![])));
}

#[test]
fn literal_passthrough() {
    let five = num(5);
    let applied = apply_plan(&five).expect("literals pass through");
    assert!(applied.deep_eq(&num(5)));
}

#[test]
fn malformed_plan_nodes_pass_through() {
    // No `_value` field.
    let missing_value = obj(vec![("_status", txt("keep"))]);
    let applied = apply_plan(&missing_value).expect("passes through");
    assert!(applied.deep_eq(&missing_value));
    // Unknown status name.
    let unknown = obj(vec![("_status", txt("rename")), ("_value", num(1))]);
    let applied = apply_plan(&unknown).expect("passes through");
    assert!(applied.deep_eq(&unknown));
    // Status is not text.
    let nontext = obj(vec![("_status", num(3)), ("_value", num(1))]);
    let applied = apply_plan(&nontext).expect("passes through");
    assert!(applied.deep_eq(&nontext));
}

#[test]
fn keep_idempotence_on_nested_tree() {
    let a = obj(vec![
        (
            "list",
            arr(vec![
                obj(vec![("id", txt("p")), ("v", num(1))]),
                obj(vec![("id", txt("q")), ("v", num(2))]),
            ]),
        ),
        ("name", txt("root")),
        ("nested", obj(vec![("deep", obj(vec![("flag", TreeValue::Boolean(true))]))])),
        ("none", TreeValue::Null),
    ]);
    let plan = generate_plan_tree(&a, &a, &keys(&["id"]));
    let applied = apply_plan(&plan).expect("merge node applies");
    assert!(applied.deep_eq(&a));
}

#[test]
fn elements_without_identity_are_kept_and_added() {
    // An array element that resolves to no identity is kept from the first
    // document and, unmatched, added again from the second: a self-diff
    // duplicates it.
    let a = arr(vec![num(5)]);
    let plan = generate_plan_tree(&a, &a, &keys(&[]));
    let nodes = field(&plan, "_value");
    assert_eq!(status_of(elem(nodes, 0)), "keep");
    assert_eq!(status_of(elem(nodes, 1)), "add");
    let applied = apply_plan(&plan).expect("merge node applies");
    assert!(applied.deep_eq(&arr(vec![num(5), num(5)])));
}

#[test]
fn key_missing_from_second_document_is_kept() {
    let a = obj(vec![("a", num(1)), ("b", num(2))]);
    let b = obj(vec![("b", num(2))]);
    let plan = generate_plan_tree(&a, &b, &keys(&[]));
    let node_for_a = field(field(&plan, "_value"), "a");
    assert_eq!(status_of(node_for_a), "keep");
    let applied = apply_plan(&plan).expect("merge node applies");
    assert!(applied.deep_eq(&a));
}

#[test]
fn mismatched_shapes_compare_as_scalars() {
    let a = obj(vec![("a", num(1))]);
    let b = arr(vec![num(1)]);
    let plan = generate_plan_tree(&a, &b, &keys(&[]));
    assert!(plan.deep_eq(&plan_node_old("overwrite", arr(vec![num(1)]), a.deep_clone())));
    let applied = apply_plan(&plan).expect("overwrite node applies");
    assert!(applied.deep_eq(&b));
}

#[test]
fn identity_resolver_rules() {
    let item = obj(vec![
        ("count", num(7)),
        ("id", txt("alpha")),
        ("name", txt("beta")),
    ]);
    // First key that holds text wins, in key order given by the caller.
    assert_eq!(get_item_identity(&item, &keys(&["name", "id"])), Some("beta".to_string()));
    assert_eq!(get_item_identity(&item, &keys(&["id", "name"])), Some("alpha".to_string()));
    // A key holding non-text is skipped, not taken.
    assert_eq!(get_item_identity(&item, &keys(&["count", "id"])), Some("alpha".to_string()));
    // No candidate matches.
    assert_eq!(get_item_identity(&item, &keys(&["missing"])), None);
    assert_eq!(get_item_identity(&item, &keys(&[])), None);
    // Non-objects have no identity.
    assert_eq!(get_item_identity(&num(3), &keys(&["id"])), None);
}

#[test]
fn scaffold_wraps_every_node() {
    let v = obj(vec![("xs", arr(vec![num(1)])), ("y", txt("t"))]);
    let scaffold = create_scaffold_plan(&v, Status::Add).to_tree();
    let expected = plan_node(
        "add",
        obj(vec![
            ("xs", plan_node("add", arr(vec![plan_node("add", num(1))]))),
            ("y", plan_node("add", txt("t"))),
        ]),
    );
    assert!(scaffold.deep_eq(&expected));
    let applied = apply_plan(&scaffold).expect("add scaffold applies");
    assert!(applied.deep_eq(&v));
}

#[test]
fn overwrite_records_prior_value() {
    let plan = create_plan(&txt("before"), &txt("after"), &keys(&[])).to_tree();
    assert!(plan.deep_eq(&plan_node_old("overwrite", txt("after"), txt("before"))));
}

#[test]
fn duplicate_identities_match_the_last() {
    // Two elements of the second array share an identity: a lookup table
    // filled front to back retains the later one, so the matched element of
    // the first array is compared against it.
    let a = arr(vec![obj(vec![("id", txt("x")), ("v", num(1))])]);
    let b = arr(vec![
        obj(vec![("id", txt("x")), ("v", num(2))]),
        obj(vec![("id", txt("x")), ("v", num(3))]),
    ]);
    let plan = generate_plan_tree(&a, &b, &keys(&["id"]));
    let nodes = field(&plan, "_value");
    let v_node = field(field(elem(nodes, 0), "_value"), "v");
    assert_eq!(status_of(v_node), "overwrite");
    assert!(field(v_node, "_value").deep_eq(&num(3)));
}

#[test]
fn addition_in_the_middle_round_trip() {
    let a = obj(vec![("a", num(1)), ("z", num(2))]);
    let b = obj(vec![("a", num(1)), ("m", num(5)), ("z", num(2))]);
    let plan = generate_plan_tree(&a, &b, &keys(&[]));
    let node_for_m = field(field(&plan, "_value"), "m");
    assert_eq!(status_of(node_for_m), "add");
    assert_eq!(status_of(field(field(&plan, "_value"), "a")), "keep");
    assert_eq!(status_of(field(field(&plan, "_value"), "z")), "keep");
    let applied = apply_plan(&plan).expect("merge node applies");
    assert!(applied.deep_eq(&b));
}
