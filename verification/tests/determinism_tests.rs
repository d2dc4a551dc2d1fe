use json_merger::TreeValue;
use json_merger::builder::generate_plan_tree;

fn to_json(t: &TreeValue) -> serde_json::Value {
    match t {
        TreeValue::Null => serde_json::Value::Null,
        TreeValue::Boolean(b) => serde_json::Value::Bool(*b),
        TreeValue::Number(n) => serde_json::Value::Number(serde_json::Number::from(*n)),
        TreeValue::Text(s) => serde_json::Value::String(s.clone()),
        TreeValue::Array(items) => serde_json::Value::Array(items.iter().map(to_json).collect()),
        TreeValue::Object(fields) => {
            let mut map = serde_json::Map::new();
            for (k, v) in fields {
                map.insert(k.clone(), to_json(v));
            }
            serde_json::Value::Object(map)
        }
    }
}

fn sample_pair() -> (TreeValue, TreeValue, Vec<String>) {
    let a = TreeValue::Object(vec![
        (
            "items".to_string(),
            TreeValue::Array(vec![
                TreeValue::Object(vec![
                    ("id".to_string(), TreeValue::Text("1".to_string())),
                    ("n".to_string(), TreeValue::Number(1)),
                ]),
                TreeValue::Object(vec![
                    ("id".to_string(), TreeValue::Text("2".to_string())),
                    ("n".to_string(), TreeValue::Number(2)),
                ]),
            ]),
        ),
        ("title".to_string(), TreeValue::Text("doc".to_string())),
    ]);
    let b = TreeValue::Object(vec![
        (
            "items".to_string(),
            TreeValue::Array(vec![
                TreeValue::Object(vec![
                    ("id".to_string(), TreeValue::Text("2".to_string())),
                    ("n".to_string(), TreeValue::Number(5)),
                ]),
            ]),
        ),
        ("title".to_string(), TreeValue::Text("doc2".to_string())),
    ]);
    (a, b, vec!["id".to_string()])
}

#[test]
fn repeated_builds_serialize_byte_identically() {
    let (a1, b1, k1) = sample_pair();
    let (a2, b2, k2) = sample_pair();
    let plan1 = generate_plan_tree(&a1, &b1, &k1);
    let plan2 = generate_plan_tree(&a2, &b2, &k2);
    assert!(plan1.deep_eq(&plan2));
    let text1 = serde_json::to_string_pretty(&to_json(&plan1)).expect("plans serialize");
    let text2 = serde_json::to_string_pretty(&to_json(&plan2)).expect("plans serialize");
    assert_eq!(text1, text2);
    assert_eq!(text1.as_bytes(), text2.as_bytes());
}
