use json_pretty::{Json, Object};

const OUTPUT: &str = r#"{
  "arr": [
    1,
    2,
    {
      "foo": "bar"
    }
  ],
  "num": 1,
  "string": "foo",
  "subobj": {
    "foo": "bar"
  }
}"#;

fn text(s: &str) -> Json {
    Json::Str(s.to_string())
}

fn sample(order: &[usize]) -> Json {
    let mut root: Object = Object::new();
    for &which in order {
        match which {
            0 => {
                let mut foo: Object = Object::new();
                foo.insert("foo".to_string(), text("bar"));
                let arr: Vec<Json> = vec![Json::Number(1), Json::Number(2), Json::Dict(foo)];
                root.insert("arr".to_string(), Json::Arr(arr));
            }
            1 => {
                root.insert("num".to_string(), Json::Number(1));
            }
            2 => {
                root.insert("string".to_string(), text("foo"));
            }
            _ => {
                let mut subobj: Object = Object::new();
                subobj.insert("foo".to_string(), text("bar"));
                root.insert("subobj".to_string(), Json::Dict(subobj));
            }
        }
    }
    Json::Dict(root)
}

#[test]
fn it_works() {
    let mut foo: Object = Object::new();
    foo.insert("foo".to_string(), Json::Str("bar".to_string()));
    let arr: Vec<Json> = vec![Json::Number(1), Json::Number(2), Json::Dict(foo)];
    let mut root: Object = Object::new();
    root.insert("arr".to_string(), Json::Arr(arr));
    root.insert("num".to_string(), Json::Number(1));
    root.insert("string".to_string(), Json::Str("foo".to_string()));
    let mut subobj: Object = Object::new();
    subobj.insert("foo".to_string(), Json::Str("bar".to_string()));
    root.insert("subobj".to_string(), Json::Dict(subobj));
    let obj = Json::Dict(root);
    println!("{}", obj.to_string());
    println!("{}", OUTPUT);
    assert_eq!(obj.to_string(), OUTPUT);
}

#[test]
fn sample_renders_the_same_in_every_insertion_order() {
    let orders: [[usize; 4]; 6] = [
        [0, 1, 2, 3],
        [3, 2, 1, 0],
        [1, 3, 0, 2],
        [2, 0, 3, 1],
        [3, 0, 1, 2],
        [1, 0, 3, 2],
    ];
    for order in orders.iter() {
        assert_eq!(sample(order).to_string(), OUTPUT);
    }
}

#[test]
fn rendering_twice_gives_the_same_text() {
    let doc = sample(&[2, 1, 0, 3]);
    let first = doc.to_string();
    let second = doc.to_string();
    assert_eq!(first, second);
    assert_eq!(first.as_bytes(), second.as_bytes());
    let mut third = String::new();
    doc.pretty(0, &mut third);
    assert_eq!(first, third);
}

#[test]
fn empty_array_is_two_brackets_on_two_lines() {
    assert_eq!(Json::Arr(vec![]).to_string(), "[\n]");
}

#[test]
fn empty_object_is_two_braces_on_two_lines() {
    assert_eq!(Json::Dict(Object::new()).to_string(), "{\n}");
}

#[test]
fn empty_containers_close_behind_the_margin_of_their_depth() {
    let mut out = String::new();
    Json::Arr(vec![]).pretty(3, &mut out);
    assert_eq!(out, "[\n      ]");
    let mut out = String::new();
    Json::Dict(Object::new()).pretty(1, &mut out);
    assert_eq!(out, "{\n  }");
}

#[test]
fn nested_empty_containers() {
    let doc = Json::Arr(vec![Json::Arr(vec![]), Json::Dict(Object::new())]);
    assert_eq!(doc.to_string(), "[\n  [\n  ],\n  {\n  }\n]");
}

#[test]
fn array_keeps_the_order_of_its_elements() {
    let doc = Json::Arr(vec![
        Json::Number(3),
        Json::Number(1),
        Json::Number(2),
        Json::Number(1),
    ]);
    assert_eq!(doc.to_string(), "[\n  3,\n  1,\n  2,\n  1\n]");
}

#[test]
fn array_of_one_element_has_no_comma() {
    let doc = Json::Arr(vec![Json::Number(7)]);
    assert_eq!(doc.to_string(), "[\n  7\n]");
}

#[test]
fn container_of_n_items_has_n_minus_one_commas() {
    for n in 0..6usize {
        let mut items = Vec::new();
        let mut members = Object::new();
        for i in 0..n {
            items.push(Json::Number(i as i32));
            members.insert(format!("k{}", i), Json::Null);
        }
        let arr = Json::Arr(items).to_string();
        let obj = Json::Dict(members).to_string();
        let expected = if n == 0 { 0 } else { n - 1 };
        assert_eq!(arr.matches(',').count(), expected);
        assert_eq!(obj.matches(',').count(), expected);
        assert_eq!(arr.lines().count(), n + 2);
        assert_eq!(obj.lines().count(), n + 2);
        assert!(!arr.contains(",\n]"));
        assert!(!obj.contains(",\n}"));
    }
}

#[test]
fn lines_are_indented_by_two_spaces_for_each_level() {
    let doc = Json::Arr(vec![Json::Arr(vec![Json::Arr(vec![Json::Number(5)])])]);
    assert_eq!(
        doc.to_string(),
        "[\n  [\n    [\n      5\n    ]\n  ]\n]"
    );
}

#[test]
fn pretty_starts_at_the_given_level() {
    let mut inner = Object::new();
    inner.insert("b".to_string(), Json::Bool(false));
    let doc = Json::Arr(vec![Json::Number(1), Json::Dict(inner)]);
    let mut out = String::new();
    doc.pretty(2, &mut out);
    assert_eq!(
        out,
        "[\n      1,\n      {\n        \"b\": \"false\"\n      }\n    ]"
    );
}

#[test]
fn pretty_appends_to_what_the_buffer_holds() {
    let mut out = String::from("value = ");
    Json::Arr(vec![Json::Null]).pretty(0, &mut out);
    assert_eq!(out, "value = [\n  \"Null\"\n]");
    Json::Number(-4).pretty(9, &mut out);
    assert_eq!(out, "value = [\n  \"Null\"\n]-4");
}

#[test]
fn scalars_ignore_the_level() {
    for level in [0usize, 1, 5] {
        let mut out = String::new();
        Json::Number(12).pretty(level, &mut out);
        assert_eq!(out, "12");
        let mut out = String::new();
        text("x").pretty(level, &mut out);
        assert_eq!(out, "\"x\"");
    }
}

#[test]
fn object_lines_hold_key_colon_space_value() {
    let mut members = Object::new();
    members.insert("n".to_string(), Json::Null);
    members.insert("a".to_string(), Json::Arr(vec![]));
    members.insert("t".to_string(), Json::Bool(true));
    assert_eq!(
        Json::Dict(members).to_string(),
        "{\n  \"a\": [\n  ],\n  \"n\": \"Null\",\n  \"t\": \"true\"\n}"
    );
}

#[test]
fn every_line_of_the_sample_has_the_margin_of_its_depth() {
    let rendered = sample(&[0, 1, 2, 3]).to_string();
    let margins: Vec<usize> = rendered
        .lines()
        .map(|line| line.len() - line.trim_start_matches(' ').len())
        .collect();
    assert_eq!(margins, vec![0, 2, 4, 4, 4, 6, 4, 2, 2, 2, 2, 4, 2, 0]);
}
