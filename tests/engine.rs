use std::collections::HashMap;

use sparkmini::engine::{
    kv_of, op_reduce_by_key, wc_filter_nonempty, wc_flat_map_tokenize, wc_map_line_to_record,
    wc_stage1_from_records, wc_stage1_make_token_records, wordcount_from_lines,
    wordcount_from_lines_with_operators,
};
use sparkmini::join::{merge_records, op_join_by_key};
use sparkmini::ops::{op_filter, op_flat_map, op_map};
use sparkmini::shuffle::{hash_key_to_partition, partition_records};
use sparkmini::value::Value;

fn obj(fields: Vec<(&str, Value)>) -> Value {
    Value::Object(fields.into_iter().map(|(k, v)| (k.to_string(), v)).collect())
}

fn s(x: &str) -> Value {
    Value::Str(x.to_string())
}

fn token_counts(recs: Vec<Value>) -> HashMap<String, u64> {
    let mut acc: HashMap<String, u64> = HashMap::new();
    for r in recs {
        let t = r.get("token").unwrap().as_str().unwrap().to_string();
        let c = r.get("count").unwrap().as_u64().unwrap();
        *acc.entry(t).or_insert(0) += c;
    }
    acc
}

#[test]
fn op_map_aplica_funcion_a_cada_registro() {
    let input = vec![obj(vec![("x", Value::Int(1))]), obj(vec![("x", Value::Int(2))])];
    let out = op_map(input, |r| {
        let v = r.get("x").unwrap().as_u64().unwrap();
        obj(vec![("x", Value::Int(v * 10))])
    });
    assert_eq!(out, vec![obj(vec![("x", Value::Int(10))]), obj(vec![("x", Value::Int(20))])]);
}

#[test]
fn op_filter_filtra_por_predicado() {
    let input = vec![
        obj(vec![("x", Value::Int(1))]),
        obj(vec![("x", Value::Int(2))]),
        obj(vec![("x", Value::Int(3))]),
    ];
    let out = op_filter(input, |r| r.get("x").unwrap().as_u64().unwrap() % 2 == 1);
    assert_eq!(out, vec![obj(vec![("x", Value::Int(1))]), obj(vec![("x", Value::Int(3))])]);
}

#[test]
fn op_flat_map_expande_registros() {
    let input = vec![
        obj(vec![("nums", Value::Array(vec![Value::Int(1), Value::Int(2)]))]),
        obj(vec![("nums", Value::Array(vec![Value::Int(3)]))]),
    ];
    let out = op_flat_map(input, |r| match r.get("nums") {
        Some(Value::Array(items)) => items.iter().map(|n| obj(vec![("n", n.copy())])).collect(),
        _ => Vec::new(),
    });
    assert_eq!(
        out,
        vec![
            obj(vec![("n", Value::Int(1))]),
            obj(vec![("n", Value::Int(2))]),
            obj(vec![("n", Value::Int(3))]),
        ]
    );
}

#[test]
fn op_reduce_by_key_agrupa_y_suma() {
    let input = vec![
        obj(vec![("token", s("a")), ("count", Value::Int(1))]),
        obj(vec![("token", s("b")), ("count", Value::Int(1))]),
        obj(vec![("token", s("a")), ("count", Value::Int(2))]),
    ];
    let out = op_reduce_by_key(input, "token", "count");
    assert_eq!(
        out,
        vec![
            obj(vec![("token", s("a")), ("count", Value::Int(3))]),
            obj(vec![("token", s("b")), ("count", Value::Int(1))]),
        ]
    );
}

#[test]
fn op_join_by_key_inner_join_basico() {
    let left = vec![
        obj(vec![("id", s("u1")), ("nombre", s("Ana"))]),
        obj(vec![("id", s("u2")), ("nombre", s("Bob"))]),
    ];
    let right = vec![
        obj(vec![("id", s("u1")), ("compras", Value::Int(10))]),
        obj(vec![("id", s("u3")), ("compras", Value::Int(99))]),
    ];
    let out = op_join_by_key(left, right, "id");
    assert_eq!(out.len(), 1);
    let rec = &out[0];
    assert_eq!(rec.get("id"), Some(&s("u1")));
    assert_eq!(rec.get("nombre"), Some(&s("Ana")));
    assert_eq!(rec.get("compras"), Some(&Value::Int(10)));
}

#[test]
fn merge_records_respeta_campos_izquierda_y_prefija_derecha() {
    let left = obj(vec![("id", s("u1")), ("x", Value::Int(1)), ("compartido", s("L"))]);
    let right = obj(vec![("id", s("u1")), ("y", Value::Int(2)), ("compartido", s("R"))]);
    let merged = merge_records(&left, &right, "id");
    assert_eq!(merged.get("id"), Some(&s("u1")));
    assert_eq!(merged.get("x"), Some(&Value::Int(1)));
    assert_eq!(merged.get("y"), Some(&Value::Int(2)));
    assert_eq!(merged.get("compartido"), Some(&s("L")));
    assert_eq!(merged.get("right_compartido"), Some(&s("R")));
}

#[test]
fn wc_stage1_make_token_records_normaliza_y_cuenta() {
    let lines = vec!["Hola hola, MUNDO!", "mundo_mundo 123"];
    let recs = wc_stage1_make_token_records(lines);
    let acc = token_counts(recs);
    assert_eq!(acc.get("hola"), Some(&2));
    assert_eq!(acc.get("mundo"), Some(&1));
    assert_eq!(acc.get("mundo_mundo"), Some(&1));
    assert_eq!(acc.get("123"), Some(&1));
}

#[test]
fn wc_stage1_from_records_lee_campo_texto() {
    let input = vec![obj(vec![("text", s("hola mundo"))]), obj(vec![("text", s("hola"))])];
    let recs = wc_stage1_from_records(input, "text");
    let acc = token_counts(recs);
    assert_eq!(acc.get("hola"), Some(&2));
    assert_eq!(acc.get("mundo"), Some(&1));
}

#[test]
fn wordcount_from_lines_cuenta_tokens_correctamente() {
    let lines = vec!["hola hola mundo", "mundo a"];
    let out = wordcount_from_lines(lines);
    assert_eq!(
        out,
        vec![
            obj(vec![("token", s("a")), ("count", Value::Int(1))]),
            obj(vec![("token", s("hola")), ("count", Value::Int(2))]),
            obj(vec![("token", s("mundo")), ("count", Value::Int(2))]),
        ]
    );
}

#[test]
fn hash_key_to_partition_retorna_id_en_rango() {
    let n = 10;
    for key in ["a", "b", "c", "xyz", "otro"] {
        let pid = hash_key_to_partition(key, n);
        assert!(pid < n);
    }
}

#[test]
fn hash_key_to_partition_is_stable_for_equal_keys() {
    assert_eq!(hash_key_to_partition("hola", 7), hash_key_to_partition("hola", 7));
    assert_eq!(hash_key_to_partition("x", 1), 0);
}

#[test]
fn reduce_by_key_skips_records_without_both_fields() {
    let input = vec![
        obj(vec![("token", s("a"))]),
        obj(vec![("count", Value::Int(4))]),
        obj(vec![("token", Value::Int(1)), ("count", Value::Int(4))]),
        obj(vec![("token", s("b")), ("count", s("4"))]),
        s("not an object"),
        obj(vec![("token", s("c")), ("count", Value::Int(5))]),
    ];
    let out = op_reduce_by_key(input, "token", "count");
    assert_eq!(out, vec![obj(vec![("token", s("c")), ("count", Value::Int(5))])]);
}

#[test]
fn reduce_by_key_output_is_sorted_and_unique() {
    let input = vec![
        obj(vec![("token", s("zeta")), ("count", Value::Int(1))]),
        obj(vec![("token", s("alfa")), ("count", Value::Int(1))]),
        obj(vec![("token", s("Beta")), ("count", Value::Int(1))]),
        obj(vec![("token", s("zeta")), ("count", Value::Int(1))]),
    ];
    let out = op_reduce_by_key(input, "token", "count");
    let keys: Vec<&str> = out.iter().map(|r| r.get("token").unwrap().as_str().unwrap()).collect();
    assert_eq!(keys, vec!["Beta", "alfa", "zeta"]);
    assert_eq!(out[2].get("count"), Some(&Value::Int(2)));
}

#[test]
fn join_is_cartesian_on_equal_keys() {
    let left = vec![
        obj(vec![("id", s("k")), ("l", Value::Int(1))]),
        obj(vec![("l", Value::Int(9))]),
        obj(vec![("id", s("k")), ("l", Value::Int(2))]),
    ];
    let right = vec![
        obj(vec![("id", s("k")), ("r", Value::Int(1))]),
        obj(vec![("id", s("k")), ("r", Value::Int(2))]),
    ];
    let out = op_join_by_key(left, right, "id");
    assert_eq!(out.len(), 4);
    assert_eq!(out[1].get("l"), Some(&Value::Int(1)));
    assert_eq!(out[1].get("r"), Some(&Value::Int(2)));
    assert_eq!(out[2].get("l"), Some(&Value::Int(2)));
}

#[test]
fn kv_of_reads_key_and_value() {
    let r = obj(vec![("k", s("a")), ("v", Value::Int(7))]);
    assert_eq!(kv_of(&r, "k", "v"), Some(("a".to_string(), 7)));
    assert_eq!(kv_of(&r, "v", "k"), None);
}

#[test]
fn partition_records_keeps_every_record_once() {
    let input: Vec<Value> = ["a", "b", "c", "a", "d"]
        .iter()
        .map(|t| obj(vec![("token", s(t)), ("count", Value::Int(1))]))
        .collect();
    let parts = partition_records(input, "token", 3);
    assert_eq!(parts.len(), 3);
    let total: usize = parts.iter().map(|p| p.len()).sum();
    assert_eq!(total, 5);
    let pa = hash_key_to_partition("a", 3) as usize;
    let count_a = parts[pa]
        .iter()
        .filter(|r| r.get("token") == Some(&s("a")))
        .count();
    assert_eq!(count_a, 2);
}

#[test]
fn wordcount_from_lines_with_operators_equivale_a_version_simple() {
    let lines = vec!["hola hola mundo", "mundo a"];
    let simple = wordcount_from_lines(lines.clone());
    let via_ops = wordcount_from_lines_with_operators(lines);
    assert_eq!(simple, via_ops);
}

#[test]
fn word_count_helpers_build_and_filter_records() {
    let r = wc_map_line_to_record("Uno, dos");
    assert_eq!(r, obj(vec![("text", s("Uno, dos"))]));
    let toks = wc_flat_map_tokenize(&r);
    assert_eq!(
        toks,
        vec![
            obj(vec![("token", s("uno")), ("count", Value::Int(1))]),
            obj(vec![("token", s("dos")), ("count", Value::Int(1))]),
        ]
    );
    assert!(wc_filter_nonempty(&toks[0]));
    assert!(!wc_filter_nonempty(&obj(vec![("token", s("  "))])));
    assert!(!wc_filter_nonempty(&obj(vec![("token", Value::Int(3))])));
}

#[test]
fn reduce_by_key_needs_only_each_key_sum_to_fit() {
    let half = u64::MAX / 2 + 1;
    let input = vec![
        obj(vec![("token", s("a")), ("count", Value::Int(half))]),
        obj(vec![("token", s("b")), ("count", Value::Int(half))]),
    ];
    let out = op_reduce_by_key(input, "token", "count");
    assert_eq!(out[0].get("count"), Some(&Value::Int(half)));
    assert_eq!(out[1].get("count"), Some(&Value::Int(half)));
}

#[test]
fn reduce_by_key_with_one_field_for_key_and_value_is_empty() {
    let input = vec![obj(vec![("x", s("a"))]), obj(vec![("x", Value::Int(1))])];
    assert!(op_reduce_by_key(input, "x", "x").is_empty());
}
