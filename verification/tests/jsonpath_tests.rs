use jsonpath_rust::json::{Json, JsonNum};
use jsonpath_rust::parser::JsonPathParserError;
use jsonpath_rust::JsonPathValue::{NoValue, Slice};
use jsonpath_rust::{find, find_as_path, find_slice, JsonPathInst, JsonPathValue, JsonPtr};
use std::str::FromStr;

/// Parses a decimal literal such as `-8.95` into the library's number.
fn jnum(text: &str) -> Json {
    let neg = text.starts_with('-');
    let body = if neg { &text[1..] } else { text };
    let (int_part, frac_part) = match body.split_once('.') {
        Some((a, b)) => (a, b),
        None => (body, ""),
    };
    let digits: String = format!("{}{}", int_part, frac_part);
    let mant: i64 = digits.parse().expect("mantissa fits in i64");
    let mant = if neg { -mant } else { mant };
    Json::dec(mant, frac_part.len() as u32)
}

/// The library's value for a serde_json document.
fn conv(v: &serde_json::Value) -> Json {
    match v {
        serde_json::Value::Null => Json::Null,
        serde_json::Value::Bool(b) => Json::Bool(*b),
        serde_json::Value::Number(n) => {
            if let Some(i) = n.as_i64() {
                Json::integer(i)
            } else if let Some(u) = n.as_u64() {
                Json::integer(i64::try_from(u).unwrap_or(i64::MAX))
            } else {
                let f = n.as_f64().expect("a number is integral or a float");
                let text = format!("{}", f);
                assert!(
                    !text.contains('e') && !text.contains('E'),
                    "exponent notation is outside the tested range"
                );
                jnum(&text)
            }
        },
        serde_json::Value::String(s) => Json::string(s),
        serde_json::Value::Array(items) => Json::Arr(items.iter().map(conv).collect()),
        serde_json::Value::Object(m) => {
            Json::Obj(m.iter().map(|(k, v)| (k.clone(), conv(v))).collect())
        },
    }
}

fn parse_doc(text: &str) -> Json {
    let v: serde_json::Value = serde_json::from_str(text).expect("to get json");
    conv(&v)
}

fn template_json<'a>() -> &'a str {
    r#" {"store": { "book": [
         {
             "category": "reference",
             "author": "Nigel Rees",
             "title": "Sayings of the Century",
             "price": 8.95
         },
         {
             "category": "fiction",
             "author": "Evelyn Waugh",
             "title": "Sword of Honour",
             "price": 12.99
         },
         {
             "category": "fiction",
             "author": "Herman Melville",
             "title": "Moby Dick",
             "isbn": "0-553-21311-3",
             "price": 8.99
         },
         {
             "category": "fiction",
             "author": "J. R. R. Tolkien",
             "title": "The Lord of the Rings",
             "isbn": "0-395-19395-8",
             "price": 22.99
         }
     ],
     "bicycle": {
         "color": "red",
         "price": 19.95
     }
 },
 "array":[0,1,2,3,4,5,6,7,8,9],
 "orders":[
     {
         "ref":[1,2,3],
         "id":1,
         "filled": true
     },
     {
         "ref":[4,5,6],
         "id":2,
         "filled": false
     },
     {
         "ref":[7,8,9],
         "id":3,
         "filled": null
     }
  ],
 "expensive": 10 }"#
}

fn test(json: &str, path: &str, expected: Vec<JsonPathValue>) {
    let json = parse_doc(json);
    let path = match JsonPathInst::from_str(path) {
        Ok(path) => path,
        Err(e) => panic!("error while parsing jsonpath: {:?}", e),
    };
    assert_eq!(find_slice(&path, &json), expected)
}

#[test]
fn simple_test() {
    let j1 = Json::integer(2);
    test(
        "[1,2,3]",
        "$[1]",
        vec![Slice(&j1, "$[1]".to_string())],
    );
}

#[test]
fn root_test() {
    let js = parse_doc(template_json());
    test(template_json(), "$", vec![Slice(&js, "$".to_string())]);
}

#[test]
fn descent_test() {
    let v1 = Json::string("reference");
    let v2 = Json::string("fiction");
    test(
        template_json(),
        "$..category",
        vec![
            Slice(&v1, "$.['store'].['book'][0].['category']".to_string()),
            Slice(&v2, "$.['store'].['book'][1].['category']".to_string()),
            Slice(&v2, "$.['store'].['book'][2].['category']".to_string()),
            Slice(&v2, "$.['store'].['book'][3].['category']".to_string()),
        ],
    );
    let js1 = jnum("19.95");
    let js2 = jnum("8.95");
    let js3 = jnum("12.99");
    let js4 = jnum("8.99");
    let js5 = jnum("22.99");
    test(
        template_json(),
        "$.store..price",
        vec![
            Slice(&js1, "$.['store'].['bicycle'].['price']".to_string()),
            Slice(&js2, "$.['store'].['book'][0].['price']".to_string()),
            Slice(&js3, "$.['store'].['book'][1].['price']".to_string()),
            Slice(&js4, "$.['store'].['book'][2].['price']".to_string()),
            Slice(&js5, "$.['store'].['book'][3].['price']".to_string()),
        ],
    );
    let js1 = Json::string("Nigel Rees");
    let js2 = Json::string("Evelyn Waugh");
    let js3 = Json::string("Herman Melville");
    let js4 = Json::string("J. R. R. Tolkien");
    test(
        template_json(),
        "$..author",
        vec![
            Slice(&js1, "$.['store'].['book'][0].['author']".to_string()),
            Slice(&js2, "$.['store'].['book'][1].['author']".to_string()),
            Slice(&js3, "$.['store'].['book'][2].['author']".to_string()),
            Slice(&js4, "$.['store'].['book'][3].['author']".to_string()),
        ],
    );
}

#[test]
fn wildcard_test() {
    let js1 = Json::string("reference");
    let js2 = Json::string("fiction");
    test(
        template_json(),
        "$..book.[*].category",
        vec![
            Slice(&js1, "$.['store'].['book'][0].['category']".to_string()),
            Slice(&js2, "$.['store'].['book'][1].['category']".to_string()),
            Slice(&js2, "$.['store'].['book'][2].['category']".to_string()),
            Slice(&js2, "$.['store'].['book'][3].['category']".to_string()),
        ],
    );
    let js1 = Json::string("Nigel Rees");
    let js2 = Json::string("Evelyn Waugh");
    let js3 = Json::string("Herman Melville");
    let js4 = Json::string("J. R. R. Tolkien");
    test(
        template_json(),
        "$.store.book[*].author",
        vec![
            Slice(&js1, "$.['store'].['book'][0].['author']".to_string()),
            Slice(&js2, "$.['store'].['book'][1].['author']".to_string()),
            Slice(&js3, "$.['store'].['book'][2].['author']".to_string()),
            Slice(&js4, "$.['store'].['book'][3].['author']".to_string()),
        ],
    );
}

#[test]
fn descendent_wildcard_test() {
    let js1 = Json::string("Moby Dick");
    let js2 = Json::string("The Lord of the Rings");
    test(
        template_json(),
        "$..*.[?(@.isbn)].title",
        vec![
            Slice(&js1, "$.['store'].['book'][2].['title']".to_string()),
            Slice(&js2, "$.['store'].['book'][3].['title']".to_string()),
            Slice(&js1, "$.['store'].['book'][2].['title']".to_string()),
            Slice(&js2, "$.['store'].['book'][3].['title']".to_string()),
        ],
    );
}

#[test]
fn field_test() {
    let value = parse_doc(r#"{"active":1}"#);
    test(
        r#"{"field":{"field":[{"active":1},{"passive":1}]}}"#,
        "$.field.field[?(@.active)]",
        vec![Slice(&value, "$.['field'].['field'][0]".to_string())],
    );
}

#[test]
fn index_index_test() {
    let value = Json::string("0-553-21311-3");
    test(
        template_json(),
        "$..book[2].isbn",
        vec![Slice(&value, "$.['store'].['book'][2].['isbn']".to_string())],
    );
}

#[test]
fn index_unit_index_test() {
    let value = Json::string("0-553-21311-3");
    test(
        template_json(),
        "$..book[2,4].isbn",
        vec![Slice(&value, "$.['store'].['book'][2].['isbn']".to_string())],
    );
    let value1 = Json::string("0-395-19395-8");
    test(
        template_json(),
        "$..book[2,3].isbn",
        vec![
            Slice(&value, "$.['store'].['book'][2].['isbn']".to_string()),
            Slice(&value1, "$.['store'].['book'][3].['isbn']".to_string()),
        ],
    );
}

#[test]
fn index_unit_keys_test() {
    let js1 = Json::string("Moby Dick");
    let js2 = jnum("8.99");
    let js3 = Json::string("The Lord of the Rings");
    let js4 = jnum("22.99");
    test(
        template_json(),
        "$..book[2,3]['title','price']",
        vec![
            Slice(&js1, "$.['store'].['book'][2].['title']".to_string()),
            Slice(&js2, "$.['store'].['book'][2].['price']".to_string()),
            Slice(&js3, "$.['store'].['book'][3].['title']".to_string()),
            Slice(&js4, "$.['store'].['book'][3].['price']".to_string()),
        ],
    );
}

#[test]
fn index_slice_test() {
    let i0 = "$.['array'][0]";
    let i1 = "$.['array'][1]";
    let i2 = "$.['array'][2]";
    let i3 = "$.['array'][3]";
    let i4 = "$.['array'][4]";
    let i5 = "$.['array'][5]";
    let i6 = "$.['array'][6]";
    let i7 = "$.['array'][7]";
    let i8 = "$.['array'][8]";
    let i9 = "$.['array'][9]";

    let j0 = Json::integer(0);
    let j1 = Json::integer(1);
    let j2 = Json::integer(2);
    let j3 = Json::integer(3);
    let j4 = Json::integer(4);
    let j5 = Json::integer(5);
    let j6 = Json::integer(6);
    let j7 = Json::integer(7);
    let j8 = Json::integer(8);
    let j9 = Json::integer(9);
    test(
        template_json(),
        "$.array[:]",
        vec![
            Slice(&j0, i0.to_string()),
            Slice(&j1, i1.to_string()),
            Slice(&j2, i2.to_string()),
            Slice(&j3, i3.to_string()),
            Slice(&j4, i4.to_string()),
            Slice(&j5, i5.to_string()),
            Slice(&j6, i6.to_string()),
            Slice(&j7, i7.to_string()),
            Slice(&j8, i8.to_string()),
            Slice(&j9, i9.to_string()),
        ],
    );
    test(
        template_json(),
        "$.array[1:4:2]",
        vec![Slice(&j1, i1.to_string()), Slice(&j3, i3.to_string())],
    );
    test(
        template_json(),
        "$.array[::3]",
        vec![
            Slice(&j0, i0.to_string()),
            Slice(&j3, i3.to_string()),
            Slice(&j6, i6.to_string()),
            Slice(&j9, i9.to_string()),
        ],
    );
    test(template_json(), "$.array[-1:]", vec![Slice(&j9, i9.to_string())]);
    test(template_json(), "$.array[-2:-1]", vec![Slice(&j8, i8.to_string())]);
}

#[test]
fn index_filter_test() {
    let moby = Json::string("Moby Dick");
    let rings = Json::string("The Lord of the Rings");
    test(
        template_json(),
        "$..book[?(@.isbn)].title",
        vec![
            Slice(&moby, "$.['store'].['book'][2].['title']".to_string()),
            Slice(&rings, "$.['store'].['book'][3].['title']".to_string()),
        ],
    );
    let sword = Json::string("Sword of Honour");
    test(
        template_json(),
        "$..book[?(@.price != 8.95)].title",
        vec![
            Slice(&sword, "$.['store'].['book'][1].['title']".to_string()),
            Slice(&moby, "$.['store'].['book'][2].['title']".to_string()),
            Slice(&rings, "$.['store'].['book'][3].['title']".to_string()),
        ],
    );
    let sayings = Json::string("Sayings of the Century");
    test(
        template_json(),
        "$..book[?(@.price == 8.95)].title",
        vec![Slice(&sayings, "$.['store'].['book'][0].['title']".to_string())],
    );
    let js895 = jnum("8.95");
    test(
        template_json(),
        "$..book[?(@.author ~= '.*Rees')].price",
        vec![Slice(&js895, "$.['store'].['book'][0].['price']".to_string())],
    );
    let js12 = jnum("12.99");
    let js899 = jnum("8.99");
    let js2299 = jnum("22.99");
    test(
        template_json(),
        "$..book[?(@.price >= 8.99)].price",
        vec![
            Slice(&js12, "$.['store'].['book'][1].['price']".to_string()),
            Slice(&js899, "$.['store'].['book'][2].['price']".to_string()),
            Slice(&js2299, "$.['store'].['book'][3].['price']".to_string()),
        ],
    );
    test(
        template_json(),
        "$..book[?(@.price > 8.99)].price",
        vec![
            Slice(&js12, "$.['store'].['book'][1].['price']".to_string()),
            Slice(&js2299, "$.['store'].['book'][3].['price']".to_string()),
        ],
    );
    test(
        template_json(),
        "$..book[?(@.price < 8.99)].price",
        vec![Slice(&js895, "$.['store'].['book'][0].['price']".to_string())],
    );
    test(
        template_json(),
        "$..book[?(@.price <= 8.99)].price",
        vec![
            Slice(&js895, "$.['store'].['book'][0].['price']".to_string()),
            Slice(&js899, "$.['store'].['book'][2].['price']".to_string()),
        ],
    );
    test(
        template_json(),
        "$..book[?(@.price <= $.expensive)].price",
        vec![
            Slice(&js895, "$.['store'].['book'][0].['price']".to_string()),
            Slice(&js899, "$.['store'].['book'][2].['price']".to_string()),
        ],
    );
    test(
        template_json(),
        "$..book[?(@.price >= $.expensive)].price",
        vec![
            Slice(&js12, "$.['store'].['book'][1].['price']".to_string()),
            Slice(&js2299, "$.['store'].['book'][3].['price']".to_string()),
        ],
    );
    test(
        template_json(),
        "$..book[?(@.title in ['Moby Dick','Shmoby Dick','Big Dick','Dicks'])].price",
        vec![Slice(&js899, "$.['store'].['book'][2].['price']".to_string())],
    );
    test(
        template_json(),
        "$..book[?(@.title nin ['Moby Dick','Shmoby Dick','Big Dick','Dicks'])].title",
        vec![
            Slice(&sayings, "$.['store'].['book'][0].['title']".to_string()),
            Slice(&sword, "$.['store'].['book'][1].['title']".to_string()),
            Slice(&rings, "$.['store'].['book'][3].['title']".to_string()),
        ],
    );
    test(
        template_json(),
        "$..book[?(@.author size 10)].title",
        vec![Slice(&sayings, "$.['store'].['book'][0].['title']".to_string())],
    );
    let filled_true = Json::integer(1);
    test(
        template_json(),
        "$.orders[?(@.filled == true)].id",
        vec![Slice(&filled_true, "$.['orders'][0].['id']".to_string())],
    );
    let filled_null = Json::integer(3);
    test(
        template_json(),
        "$.orders[?(@.filled == null)].id",
        vec![Slice(&filled_null, "$.['orders'][2].['id']".to_string())],
    );
}

#[test]
fn index_filter_sets_test() {
    let j1 = Json::integer(1);
    test(
        template_json(),
        "$.orders[?(@.ref subsetOf [1,2,3,4])].id",
        vec![Slice(&j1, "$.['orders'][0].['id']".to_string())],
    );
    let j2 = Json::integer(2);
    test(
        template_json(),
        "$.orders[?(@.ref anyOf [1,4])].id",
        vec![
            Slice(&j1, "$.['orders'][0].['id']".to_string()),
            Slice(&j2, "$.['orders'][1].['id']".to_string()),
        ],
    );
    let j3 = Json::integer(3);
    test(
        template_json(),
        "$.orders[?(@.ref noneOf [3,6])].id",
        vec![Slice(&j3, "$.['orders'][2].['id']".to_string())],
    );
}

#[test]
fn query_test() {
    let json = parse_doc(template_json());
    let path = JsonPathInst::from_str("$..book[?(@.author size 10)].title")
        .expect("the path is correct");
    let v = find(&path, &json);
    let expected = Json::Arr(vec![Json::string("Sayings of the Century")]);
    assert_eq!(jsonpath_rust::json::json_eq(&v, &expected), true);
}

#[test]
fn find_slice_test() {
    let json = parse_doc(template_json());
    let path = JsonPathInst::from_str("$..book[?(@.author size 10)].title")
        .expect("the path is correct");
    let v = find_slice(&path, &json);
    let js = Json::string("Sayings of the Century");
    assert_eq!(v, vec![Slice(&js, "$.['store'].['book'][0].['title']".to_string())]);
}

#[test]
fn find_in_array_test() {
    let json = parse_doc(r#"[{"verb": "TEST"}, {"verb": "RUN"}]"#);
    let path = JsonPathInst::from_str("$.[?(@.verb == 'TEST')]").expect("the path is correct");
    let v = find_slice(&path, &json);
    let js = parse_doc(r#"{"verb":"TEST"}"#);
    assert_eq!(v, vec![Slice(&js, "$[0]".to_string())]);
}

#[test]
fn length_test() {
    let json = parse_doc(r#"[{"verb": "TEST"},{"verb": "TEST"}, {"verb": "RUN"}]"#);
    let path = JsonPathInst::from_str("$.[?(@.verb == 'TEST')].length()")
        .expect("the path is correct");
    let v = find(&path, &json);
    assert_eq!(jsonpath_rust::json::json_eq(&v, &Json::Arr(vec![Json::integer(2)])), true);

    let json = parse_doc(r#"[{"verb": "TEST"},{"verb": "TEST"}, {"verb": "RUN"}]"#);
    let path = JsonPathInst::from_str("$.length()").expect("the path is correct");
    let v = find(&path, &json);
    assert_eq!(jsonpath_rust::json::json_eq(&v, &Json::Arr(vec![Json::integer(3)])), true);

    // length of search following the wildcard returns correct result
    let json = parse_doc(r#"[{"verb": "TEST"},{"verb": "TEST","x":3}, {"verb": "RUN"}]"#);
    let path = JsonPathInst::from_str("$.[?(@.verb == 'TEST')].[*].length()")
        .expect("the path is correct");
    let v = find(&path, &json);
    assert_eq!(jsonpath_rust::json::json_eq(&v, &Json::Arr(vec![Json::integer(3)])), true);

    // length of object returns null
    let json = parse_doc(r#"{"verb": "TEST"}"#);
    let path = JsonPathInst::from_str("$.length()").expect("the path is correct");
    let v = find(&path, &json);
    assert_eq!(jsonpath_rust::json::json_eq(&v, &Json::Null), true);

    // length of integer returns null
    let json = parse_doc("1");
    let path = JsonPathInst::from_str("$.length()").expect("the path is correct");
    let v = find(&path, &json);
    assert_eq!(jsonpath_rust::json::json_eq(&v, &Json::Null), true);

    // length of array returns correct result
    let json = parse_doc("[[1], [2], [3]]");
    let path = JsonPathInst::from_str("$.length()").expect("the path is correct");
    let v = find(&path, &json);
    assert_eq!(jsonpath_rust::json::json_eq(&v, &Json::Arr(vec![Json::integer(3)])), true);

    // path does not exist returns length null
    let json = parse_doc(r#"[{"verb": "TEST"},{"verb": "TEST"}, {"verb": "RUN"}]"#);
    let path = JsonPathInst::from_str("$.not.exist.length()").expect("the path is correct");
    let v = find(&path, &json);
    assert_eq!(jsonpath_rust::json::json_eq(&v, &Json::Null), true);

    // searching one value returns correct length
    let json = parse_doc(r#"[{"verb": "TEST"},{"verb": "TEST"}, {"verb": "RUN"}]"#);
    let path = JsonPathInst::from_str("$.[?(@.verb == 'RUN')].length()")
        .expect("the path is correct");
    let v = find(&path, &json);
    assert_eq!(jsonpath_rust::json::json_eq(&v, &Json::Arr(vec![Json::integer(1)])), true);

    // searching a correct path following a missing key returns length null
    let json = parse_doc(r#"[{"verb": "TEST"},{"verb": "TEST"}, {"verb": "RUN"}]"#);
    let path = JsonPathInst::from_str("$.[?(@.verb == 'RUN')].key123.length()")
        .expect("the path is correct");
    let v = find(&path, &json);
    assert_eq!(jsonpath_rust::json::json_eq(&v, &Json::Null), true);

    // fetching the first object returns length null
    let json = parse_doc(r#"[{"verb": "TEST"},{"verb": "TEST"}, {"verb": "RUN"}]"#);
    let path = JsonPathInst::from_str("$.[0].length()").expect("the path is correct");
    let v = find(&path, &json);
    assert_eq!(jsonpath_rust::json::json_eq(&v, &Json::Null), true);

    // length on fetching the index after search gives length of the object (array)
    let json = parse_doc(r#"[{"prop": [["a", "b", "c"], "d"]}]"#);
    let path = JsonPathInst::from_str("$.[?(@.prop)].prop.[0].length()")
        .expect("the path is correct");
    let v = find(&path, &json);
    assert_eq!(jsonpath_rust::json::json_eq(&v, &Json::Arr(vec![Json::integer(3)])), true);

    // length on fetching the index after search gives the string's
    // codepoint length
    let json = parse_doc(r#"[{"prop": [["a", "b", "c"], "d"]}]"#);
    let path = JsonPathInst::from_str("$.[?(@.prop)].prop.[1].length()")
        .expect("the path is correct");
    let v = find(&path, &json);
    assert_eq!(jsonpath_rust::json::json_eq(&v, &Json::Arr(vec![Json::integer(1)])), true);
}

#[test]
fn no_value_index_from_not_arr_filter_test() {
    let json = parse_doc(r#"{"field":"field"}"#);
    let path = JsonPathInst::from_str("$.field[1]").expect("the path is correct");
    let v = find_slice(&path, &json);
    assert_eq!(v, vec![NoValue]);

    let json = parse_doc(r#"{"field":[0]}"#);
    let path = JsonPathInst::from_str("$.field[1]").expect("the path is correct");
    let v = find_slice(&path, &json);
    assert_eq!(v, vec![NoValue]);
}

#[test]
fn no_value_filter_from_not_arr_filter_test() {
    let json = parse_doc(r#"{"field":"field"}"#);
    let path = JsonPathInst::from_str("$.field[?(@ == 0)]").expect("the path is correct");
    let v = find_slice(&path, &json);
    assert_eq!(v, vec![NoValue]);
}

#[test]
fn no_value_index_filter_test() {
    let json = parse_doc(r#"{"field":[{"f":1},{"f":0}]}"#);
    let path = JsonPathInst::from_str("$.field[?(@.f_ == 0)]").expect("the path is correct");
    let v = find_slice(&path, &json);
    assert_eq!(v, vec![NoValue]);
}

#[test]
fn no_value_decent_test() {
    let json = parse_doc(r#"{"field":[{"f":1},{"f":{"f_":1}}]}"#);
    let path = JsonPathInst::from_str("$..f_").expect("the path is correct");
    let v = find_slice(&path, &json);
    let one = Json::integer(1);
    assert_eq!(v, vec![Slice(&one, "$.['field'][1].['f'].['f_']".to_string())]);
}

#[test]
fn no_value_chain_test() {
    let json = parse_doc(r#"{"field":{"field":[1]}}"#);
    let path = JsonPathInst::from_str("$.field_.field").expect("the path is correct");
    let v = find_slice(&path, &json);
    assert_eq!(v, vec![NoValue]);

    let path = JsonPathInst::from_str("$.field_.field[?(@ == 1)]").expect("the path is correct");
    let v = find_slice(&path, &json);
    assert_eq!(v, vec![NoValue]);
}

#[test]
fn no_value_filter_test() {
    // searching a missing value returns null
    let json = parse_doc(r#"[{"verb": "TEST"},{"verb": "TEST"}, {"verb": "RUN"}]"#);
    let path = JsonPathInst::from_str("$.[?(@.verb == \"RUN1\")]").expect("the path is correct");
    let v = find(&path, &json);
    assert_eq!(jsonpath_rust::json::json_eq(&v, &Json::Null), true);
}

#[test]
fn no_value_len_test() {
    let json = parse_doc(r#"{"field":{"field":1}}"#);
    let path = JsonPathInst::from_str("$.field.field.length()").expect("the path is correct");
    let v = find_slice(&path, &json);
    assert_eq!(v, vec![NoValue]);

    let json = parse_doc(r#"{"field":[{"a":1},{"a":1}]}"#);
    let path = JsonPathInst::from_str("$.field[?(@.a == 0)].f.length()")
        .expect("the path is correct");
    let v = find_slice(&path, &json);
    assert_eq!(v, vec![NoValue]);
}

#[test]
fn no_clone_api_test() {
    fn test_coercion(value: &Json) -> Json {
        value.clone()
    }

    let json = parse_doc(template_json());
    let query = JsonPathInst::from_str("$..book[?(@.author size 10)].title")
        .expect("the path is correct");

    let results = query.find_slice(&json);
    let v = results.first().expect("to get value");

    let expected = Json::string("Sayings of the Century");
    match v {
        JsonPtr::Slice(data) => {
            test_coercion(data);
            assert_eq!(jsonpath_rust::json::json_eq(data, &expected), true);
        },
        JsonPtr::NewValue(_) => panic!("expected a slice of the document"),
    }
}

#[test]
fn logical_exp_test() {
    let json = parse_doc(r#"{"first":{"second":[{"active":1},{"passive":1}]}}"#);

    let path = JsonPathInst::from_str("$.first[?(@.does_not_exist && @.does_not_exist >= 1.0)]")
        .expect("the path is correct");
    let v = find_slice(&path, &json);
    assert_eq!(v, vec![NoValue]);

    let path = JsonPathInst::from_str("$.first[?(@.does_not_exist >= 1.0)]")
        .expect("the path is correct");
    let v = find_slice(&path, &json);
    assert_eq!(v, vec![NoValue]);
}

#[test]
fn regex_filter_test() {
    let json = parse_doc(r#"{"author":"abcd(Rees)"}"#);
    let path = JsonPathInst::from_str("$.[?(@.author ~= '(?i)d\\(Rees\\)')]")
        .expect("the path is correct");
    let expected = parse_doc(r#"{"author":"abcd(Rees)"}"#);
    assert_eq!(
        find_slice(&path, &json),
        vec![Slice(&expected, "$".to_string())]
    );
}

#[test]
fn logical_not_exp_test() {
    let json = parse_doc(r#"{"first":{"second":{"active":1}}}"#);
    let expected = parse_doc(r#"{"second":{"active": 1}}"#);
    let path = JsonPathInst::from_str("$.first[?(!@.does_not_exist >= 1.0)]")
        .expect("the path is correct");
    let v = find_slice(&path, &json);
    assert_eq!(v, vec![Slice(&expected, "$.['first']".to_string())]);

    let path = JsonPathInst::from_str("$.first[?(!(@.does_not_exist >= 1.0))]")
        .expect("the path is correct");
    let v = find_slice(&path, &json);
    assert_eq!(v, vec![Slice(&expected, "$.['first']".to_string())]);

    let path = JsonPathInst::from_str("$.first[?(!(@.second.active == 1) || @.second.active == 1)]")
        .expect("the path is correct");
    let v = find_slice(&path, &json);
    assert_eq!(v, vec![Slice(&expected, "$.['first']".to_string())]);

    let path = JsonPathInst::from_str(
        "$.first[?(!@.second.active == 1 && !@.second.active == 1 || !@.second.active == 2)]",
    )
    .expect("the path is correct");
    let v = find_slice(&path, &json);
    assert_eq!(v, vec![Slice(&expected, "$.['first']".to_string())]);
}

// ------- properties and edges beyond the original suite -------

#[test]
fn find_as_path_store_test() {
    // path faithfulness on the store: the paths of the authors, in order
    let json = parse_doc(template_json());
    let path = JsonPathInst::from_str("$.store.book[*].author").expect("the path is correct");
    let v = find_as_path(&path, &json);
    let expected = Json::Arr(vec![
        Json::string("$.['store'].['book'][0].['author']"),
        Json::string("$.['store'].['book'][1].['author']"),
        Json::string("$.['store'].['book'][2].['author']"),
        Json::string("$.['store'].['book'][3].['author']"),
    ]);
    assert_eq!(jsonpath_rust::json::json_eq(&v, &expected), true);
}

#[test]
fn resolving_returned_paths_test() {
    // every returned path, evaluated as its own query, finds the same node
    let json = parse_doc(template_json());
    let path = JsonPathInst::from_str("$..book[?(@.isbn)].title").expect("the path is correct");
    let matches = find_slice(&path, &json);
    for m in &matches {
        match m {
            Slice(v, p) => {
                let back = JsonPathInst::from_str(p).expect("a canonical path parses");
                let again = find_slice(&back, &json);
                assert_eq!(again.len(), 1);
                match &again[0] {
                    Slice(v2, p2) => {
                        assert_eq!(jsonpath_rust::json::json_eq(v, v2), true);
                        assert_eq!(p, p2);
                    },
                    _ => panic!("the canonical path must match"),
                }
            },
            _ => panic!("expected slices"),
        }
    }
}

#[test]
fn determinism_test() {
    let json = parse_doc(template_json());
    let path = JsonPathInst::from_str("$..book[?(@.price < 10)].title")
        .expect("the path is correct");
    let first = find_slice(&path, &json);
    let second = find_slice(&path, &json);
    assert_eq!(first, second);
}

#[test]
fn insertion_order_wildcard_test() {
    // an object built with keys out of alphabetical order keeps its
    // insertion order under the wildcard
    let doc = Json::Obj(vec![
        ("zeta".to_string(), Json::integer(1)),
        ("alpha".to_string(), Json::integer(2)),
    ]);
    let path = JsonPathInst::from_str("$.*").expect("the path is correct");
    let v = find(&path, &doc);
    let expected = Json::Arr(vec![Json::integer(1), Json::integer(2)]);
    assert_eq!(jsonpath_rust::json::json_eq(&v, &expected), true);
}

#[test]
fn no_value_iff_null_test() {
    // find gives null exactly when find_slice gives the lone NoValue
    let json = parse_doc(template_json());
    let q1 = JsonPathInst::from_str("$.does.not.exist").expect("the path is correct");
    assert_eq!(find_slice(&q1, &json), vec![NoValue]);
    assert_eq!(jsonpath_rust::json::json_eq(&find(&q1, &json), &Json::Null), true);

    let q2 = JsonPathInst::from_str("$.expensive").expect("the path is correct");
    assert!(find_slice(&q2, &json) != vec![NoValue]);
    assert!(!jsonpath_rust::json::json_eq(&find(&q2, &json), &Json::Null));
}

#[test]
fn compile_stable_test() {
    // compiling the same text twice yields evaluators with identical
    // behaviour
    let json = parse_doc(template_json());
    let a = JsonPathInst::from_str("$..book[?(@.price <= $.expensive)].price")
        .expect("the path is correct");
    let b = JsonPathInst::from_str("$..book[?(@.price <= $.expensive)].price")
        .expect("the path is correct");
    assert_eq!(find_slice(&a, &json), find_slice(&b, &json));
}

#[test]
fn parse_error_test() {
    for bad in [
        "store.book",
        "$..",
        "$.store[",
        "$.store.book[?(@.price]",
        "$.[?(@.a == )]",
        "$.a..",
        "",
    ] {
        match JsonPathInst::from_str(bad) {
            Err(JsonPathParserError::ParseError { .. }) => {},
            Err(JsonPathParserError::CompileError { .. }) => {
                panic!("{:?} should be a parse error", bad)
            },
            Ok(_) => panic!("{:?} should not parse", bad),
        }
    }
}

#[test]
fn compile_error_step_test() {
    for bad in ["$.array[::0]", "$.array[1:4:0]", "$.array[::-1]"] {
        match JsonPathInst::from_str(bad) {
            Err(JsonPathParserError::CompileError { .. }) => {},
            other => panic!("{:?} should be a compile error, got {:?}", bad, other),
        }
    }
}

#[test]
fn compile_error_regex_test() {
    match JsonPathInst::from_str("$.[?(@.author ~= '(')]") {
        Err(JsonPathParserError::CompileError { .. }) => {},
        other => panic!("an invalid pattern should be a compile error, got {:?}", other),
    }
}

#[test]
fn number_compare_exact_test() {
    // 10 == 10.0, 8.95 < 10, 22.99 > 10, and 8.950 equals 8.95
    let doc = Json::Obj(vec![
        ("a".to_string(), jnum("10")),
        ("b".to_string(), jnum("10.0")),
    ]);
    let q = JsonPathInst::from_str("$.[?(@.a == 10.0)].b").expect("the path is correct");
    let v = find(&q, &doc);
    let expected = Json::Arr(vec![jnum("10")]);
    assert_eq!(jsonpath_rust::json::json_eq(&v, &expected), true);
    assert_eq!(
        jsonpath_rust::json::json_eq(&jnum("8.950"), &jnum("8.95")),
        true
    );
    assert_eq!(jsonpath_rust::json::json_eq(&jnum("8.95"), &jnum("8.99")), false);
}

#[test]
fn size_of_string_and_object_test() {
    // `size` over a string counts characters, over an object members
    let json = parse_doc(r#"[{"name":"abc","tags":{"x":1,"y":2}}]"#);
    let q = JsonPathInst::from_str("$.[?(@.name size 3)].name").expect("the path is correct");
    let v = find(&q, &json);
    let expected = Json::Arr(vec![Json::string("abc")]);
    assert_eq!(jsonpath_rust::json::json_eq(&v, &expected), true);
    let q = JsonPathInst::from_str("$.[?(@.tags size 2)].name").expect("the path is correct");
    let v = find(&q, &json);
    assert_eq!(jsonpath_rust::json::json_eq(&v, &expected), true);
}

#[test]
fn helpers_test() {
    let one = Json::integer(1);
    let rec = JsonPathValue::new_slice(&one, "$[0]".to_string());
    assert!(rec.has_value());
    assert_eq!(rec.clone().to_path(), Some("$[0]".to_string()));
    assert_eq!(
        jsonpath_rust::json::json_eq(&rec.clone().to_data(), &Json::integer(1)),
        true
    );
    let root = JsonPathValue::from_root(&one);
    assert_eq!(root.to_path(), Some("$".to_string()));
    assert!(!JsonPathValue::NoValue.has_value());

    let input = vec![
        JsonPathValue::new_slice(&one, "$[0]".to_string()),
        JsonPathValue::NoValue,
    ];
    let data = JsonPathValue::vec_as_data(input);
    assert_eq!(data.len(), 1);
    let input = vec![
        JsonPathValue::new_slice(&one, "$[0]".to_string()),
        JsonPathValue::NoValue,
    ];
    let pairs = JsonPathValue::vec_as_pair(input);
    assert_eq!(pairs.len(), 1);
    assert_eq!(pairs[0].1, "$[0]".to_string());

    let fallback = Json::Null;
    let kept = JsonPathValue::new_slice(&one, "$".to_string()).slice_or(&fallback);
    assert_eq!(jsonpath_rust::json::json_eq(kept, &one), true);
    let defaulted = JsonPathValue::NoValue.slice_or(&fallback);
    assert_eq!(jsonpath_rust::json::json_eq(defaulted, &Json::Null), true);
}

#[test]
fn number_builder_test() {
    // the decimal builder keeps mantissa and scale as given
    let n = JsonNum::new(895, 2);
    assert_eq!(n.mant(), 895);
    assert_eq!(n.scale(), 2);
    let i = JsonNum::integer(-7);
    assert_eq!(i.mant(), -7);
    assert_eq!(i.scale(), 0);
}

#[test]
fn serialize_stable_test() {
    // serializing a compiled path is stable: serializing again after a
    // round trip through the parser yields the very same text
    let json = parse_doc(template_json());
    for q in [
        "$.store.book[*].author",
        "$..book[?(@.price <= $.expensive)].price",
        "$.array[1:4:2]",
        "$..book[2,3]['title','price']",
        "$.[?(@.verb == 'TEST')].length()",
    ] {
        let a = JsonPathInst::from_str(q).expect("the path is correct");
        let t1 = jsonpath_rust::text::path_text(&a.inner);
        let b = JsonPathInst::from_str(&t1).expect("the serialized path parses");
        let t2 = jsonpath_rust::text::path_text(&b.inner);
        assert_eq!(t1, t2);
        assert_eq!(find_slice(&a, &json), find_slice(&b, &json));
    }
}

#[test]
fn descent_field_vs_wildcard_test() {
    // `$..price` finds exactly what `$..*` finds once the matches are
    // kept to the paths ending in the member 'price'
    let json = parse_doc(template_json());
    let direct = JsonPathInst::from_str("$..price").expect("the path is correct");
    let all = JsonPathInst::from_str("$..*").expect("the path is correct");
    let direct_paths: Vec<String> = find_slice(&direct, &json)
        .into_iter()
        .filter_map(|r| r.to_path())
        .collect();
    let filtered_paths: Vec<String> = find_slice(&all, &json)
        .into_iter()
        .filter_map(|r| r.to_path())
        .filter(|p| p.ends_with(".['price']"))
        .collect();
    assert_eq!(direct_paths, filtered_paths);
}

#[test]
fn json_ptr_value_test() {
    let json = parse_doc(template_json());
    let query = JsonPathInst::from_str("$.expensive").expect("the path is correct");
    let results = query.find_slice(&json);
    assert_eq!(results.len(), 1);
    assert_eq!(
        jsonpath_rust::json::json_eq(results[0].value(), &Json::integer(10)),
        true
    );
}

#[test]
fn dec_scale_normalization_test() {
    // a scale beyond the representable range drops one trailing mantissa
    // digit per excess place: 1234/10^20 becomes 12/10^18
    let wide = Json::dec(1234, 20);
    let narrowed = Json::dec(12, 18);
    assert_eq!(jsonpath_rust::json::json_eq(&wide, &narrowed), true);
    let neg = Json::dec(-1234, 20);
    let neg_narrowed = Json::dec(-12, 18);
    assert_eq!(jsonpath_rust::json::json_eq(&neg, &neg_narrowed), true);
}
