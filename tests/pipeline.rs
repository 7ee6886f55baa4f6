use sparkmini::aggregate::SpillingAggregator;
use sparkmini::dag::{Dag, DagNode};
use sparkmini::interpret::{build_wordcount_dag, execute_wordcount_dag_for_file, plan_read, EngineError, InputFormat};
use sparkmini::join::op_join_by_key;
use sparkmini::readers::{nonblank_lines, read_csv_to_records, read_text_to_records, split_lines, write_jsonl_lines};
use sparkmini::runner::ActiveTask;
use sparkmini::shuffle::{pair_partitions, partition_paths, spill_dir_for, stage_id_for, Partition};
use sparkmini::task::Task;
use sparkmini::tokenize::tokenize;
use sparkmini::value::Value;
use sparkmini::wordcount::{
    wordcount_csv_file_shuffled_local, wordcount_file, wordcount_file_shuffled_local,
    wordcount_jsonl_file_shuffled_local,
};

fn obj(fields: Vec<(&str, Value)>) -> Value {
    Value::Object(fields.into_iter().map(|(k, v)| (k.to_string(), v)).collect())
}

fn s(x: &str) -> Value {
    Value::Str(x.to_string())
}

fn sorted_lines(content: &str) -> Vec<String> {
    let mut lines: Vec<String> = content.lines().map(|l| l.to_string()).collect();
    lines.sort();
    lines
}

fn node(op: &str, partitions: Option<u32>) -> DagNode {
    DagNode {
        id: "n".to_string(),
        op: op.to_string(),
        path: None,
        partitions,
        fn_name: None,
        key: None,
    }
}

#[test]
fn read_csv_to_records_lee_encabezados_y_valores() {
    let recs = read_csv_to_records("nombre,edad\nAna,30\nBob,25\n");
    assert_eq!(recs.len(), 2);
    assert_eq!(recs[0].get("nombre"), Some(&s("Ana")));
    assert_eq!(recs[0].get("edad"), Some(&s("30")));
    assert_eq!(recs[1].get("nombre"), Some(&s("Bob")));
}

#[test]
fn read_csv_to_records_soporta_archivo_vacio() {
    let recs = read_csv_to_records("");
    assert!(recs.is_empty());
}

#[test]
fn read_csv_trims_strips_bom_and_fills_missing_cells() {
    let recs = read_csv_to_records("\u{feff}id , nombre\n\n u1 ,\u{feff}Ana\nu2\n   \n");
    assert_eq!(recs.len(), 2);
    assert_eq!(recs[0].get("id"), Some(&s("u1")));
    assert_eq!(recs[0].get("nombre"), Some(&s("Ana")));
    assert_eq!(recs[1].get("id"), Some(&s("u2")));
    assert_eq!(recs[1].get("nombre"), Some(&s("")));
}

#[test]
fn csv_rows_have_the_header_field_names() {
    let recs = read_csv_to_records("a,b,c\n1,2,3\n4\n");
    for r in &recs {
        let names: Vec<&str> = r.as_object().unwrap().iter().map(|f| f.0.as_str()).collect();
        assert_eq!(names, vec!["a", "b", "c"]);
    }
}

#[test]
fn text_reader_makes_one_record_per_non_empty_line() {
    let recs = read_text_to_records("uno\n\ndos\r\n");
    assert_eq!(recs, vec![obj(vec![("text", s("uno"))]), obj(vec![("text", s("dos"))])]);
}

#[test]
fn split_lines_drops_carriage_returns_and_final_newline() {
    let ls = split_lines("a\r\nb\n\nc");
    assert_eq!(ls, vec!["a".to_string(), "b".to_string(), "".to_string(), "c".to_string()]);
}

#[test]
fn jsonl_framing_round_trip() {
    let docs = vec!["{\"k\":\"a\",\"v\":1}".to_string(), "{\"k\":\"b\",\"v\":2}".to_string()];
    let text = write_jsonl_lines(&docs);
    assert_eq!(text, "{\"k\":\"a\",\"v\":1}\n{\"k\":\"b\",\"v\":2}\n");
    assert_eq!(nonblank_lines(&text), docs);
}

#[test]
fn tokenize_normalizes_words() {
    assert_eq!(tokenize("Hola hola, MUNDO!  -- x_1\t2"), vec!["hola", "hola", "mundo", "x_1", "2"]);
    assert!(tokenize(" \n\t").is_empty());
}

#[test]
fn wordcount_file_shuffled_local_end_to_end() {
    let out = wordcount_file_shuffled_local("Hola hola mundo\nmundo mundo prueba\n", 3);
    assert_eq!(sorted_lines(&out), vec!["hola,2", "mundo,3", "prueba,1"]);
}

#[test]
fn happy_path_wordcount_output_is_sorted_two_column() {
    let out = wordcount_file_shuffled_local("hola hola mundo\nmundo mundo prueba\n", 3);
    assert_eq!(out, "hola,2\nmundo,3\nprueba,1\n");
}

#[test]
fn wordcount_is_deterministic_and_partition_independent() {
    let text = "b a c a\nc c\n";
    let one = wordcount_file_shuffled_local(text, 1);
    assert_eq!(one, wordcount_file_shuffled_local(text, 1));
    assert_eq!(one, wordcount_file_shuffled_local(text, 7));
    assert_eq!(one, wordcount_file_shuffled_local(text, 0));
    assert_eq!(one, "a,2\nb,1\nc,3\n");
}

#[test]
fn empty_input_gives_empty_output() {
    assert_eq!(wordcount_file_shuffled_local("", 3), "");
    assert_eq!(wordcount_file(""), "");
}

#[test]
fn wordcount_csv_file_shuffled_local_usa_columna_text() {
    let out = wordcount_csv_file_shuffled_local("id,text\n1,\"hola mundo\"\n2,\"hola\"\n", "text", 2);
    assert_eq!(sorted_lines(&out), vec!["hola,2", "mundo,1"]);
}

#[test]
fn wordcount_jsonl_file_shuffled_local_usa_campo_text() {
    let recs = vec![obj(vec![("text", s("hola mundo"))]), obj(vec![("text", s("hola"))])];
    let out = wordcount_jsonl_file_shuffled_local(recs, "text", 2);
    assert_eq!(sorted_lines(&out), vec!["hola,2", "mundo,1"]);
}

#[test]
fn wordcount_file_counts_words_correctly() {
    let out = wordcount_file("Hola hola, mundo!!\nmundo   mundo_prueba\n");
    assert_eq!(sorted_lines(&out), vec!["hola,2", "mundo,2", "mundo_prueba,1"]);
}

#[test]
fn wordcount_file_on_empty_input_creates_empty_output() {
    let out = wordcount_file("");
    assert!(out.trim().is_empty());
}

#[test]
fn spilling_aggregator_spillea_y_finaliza_correctamente() {
    let mut agg = SpillingAggregator::new("spill_dir", 2, 7);
    assert!(agg.add("a", 1).is_none());
    let spill = agg.add("b", 1).expect("second key reaches the threshold");
    assert_eq!(spill.path, "spill_dir/spill-7-1.jsonl");
    assert_eq!(spill.entries, vec![("a".to_string(), 1), ("b".to_string(), 1)]);
    assert!(agg.add("a", 2).is_none());
    let out = agg.finalize(&vec![spill.entries]);
    assert_eq!(sorted_lines(&out), vec!["a,3", "b,1"]);
}

#[test]
fn aggregator_spill_with_many_distinct_keys() {
    let threshold = 4;
    let mut agg = SpillingAggregator::new("d", threshold, 1);
    let mut spilled = Vec::new();
    let n = 5 * threshold;
    for round in 0..2u64 {
        for i in 0..n {
            let key = format!("k{:03}", i);
            if let Some(sp) = agg.add(&key, round + 1) {
                spilled.push(sp.entries);
            }
        }
    }
    assert!(spilled.len() >= 4);
    let out = agg.finalize(&spilled);
    let lines: Vec<&str> = out.lines().collect();
    assert_eq!(lines.len(), n);
    for (i, l) in lines.iter().enumerate() {
        assert_eq!(*l, format!("k{:03},3", i));
    }
}

#[test]
fn aggregator_output_does_not_depend_on_threshold() {
    let pairs = [("x", 5u64), ("y", 1), ("x", 2), ("z", 9), ("y", 3)];
    let mut outs = Vec::new();
    for threshold in [0usize, 1, 2, 3, 100] {
        let mut agg = SpillingAggregator::new("d", threshold, 1);
        let mut spilled = Vec::new();
        for (k, v) in pairs.iter() {
            if let Some(sp) = agg.add(k, *v) {
                spilled.push(sp.entries);
            }
        }
        outs.push(agg.finalize(&spilled));
    }
    for o in &outs {
        assert_eq!(o, "x,7\ny,4\nz,9\n");
    }
}

#[test]
fn aggregator_without_input_gives_empty_output() {
    let agg = SpillingAggregator::new("d", 3, 1);
    assert_eq!(agg.finalize(&Vec::new()), "");
}

#[test]
fn can_add_refuses_overflow() {
    let mut agg = SpillingAggregator::new("", 3, 1);
    assert!(agg.can_add(u64::MAX));
    assert!(agg.add("a", u64::MAX - 1).is_none());
    assert!(agg.can_add(1));
    assert!(!agg.can_add(2));
}

#[test]
fn join_csv_in_memory_hace_inner_join_por_clave() {
    let left = read_csv_to_records("id,nombre\nu1,Ana\nu2,Bob\n");
    let right = read_csv_to_records("id,compras\nu1,10\nu3,99\n");
    let out = op_join_by_key(left, right, "id");
    assert_eq!(out.len(), 1);
    assert_eq!(out[0].get("id"), Some(&s("u1")));
    assert_eq!(out[0].get("nombre"), Some(&s("Ana")));
    assert_eq!(out[0].get("compras"), Some(&s("10")));
    assert_eq!(out[0].as_object().unwrap().len(), 3);
}

#[test]
fn build_wordcount_dag_reads_text_with_four_partitions() {
    let (dag, glob) = build_wordcount_dag();
    assert_eq!(glob, "/data/input/*");
    assert_eq!(dag.nodes.len(), 4);
    assert_eq!(dag.nodes[0].op, "read_text");
    assert_eq!(dag.nodes[0].partitions, Some(4));
    assert_eq!(dag.nodes[3].key.as_deref(), Some("token"));
    assert_eq!(dag.edges.len(), 3);
    let plan = plan_read(&dag, "/data/input/a.csv", 2).unwrap();
    assert_eq!(plan.format, InputFormat::Text);
    assert_eq!(plan.partitions, 4);
}

#[test]
fn plan_read_infers_format_from_extension() {
    let dag = Dag { nodes: vec![node("map", None), node("read_any", Some(0))], edges: Vec::new() };
    let p = plan_read(&dag, "/x/data.CSV", 5).unwrap();
    assert_eq!(p.format, InputFormat::Csv);
    assert_eq!(p.partitions, 1);
    assert_eq!(plan_read(&dag, "/x/data.jsonl", 5).unwrap().format, InputFormat::JsonLines);
    assert_eq!(plan_read(&dag, "/x/data.Json", 5).unwrap().format, InputFormat::JsonLines);
    assert_eq!(plan_read(&dag, "/x/.csv", 5).unwrap().format, InputFormat::Text);
    assert_eq!(plan_read(&dag, "/x.csv/data", 5).unwrap().format, InputFormat::Text);
    let d2 = Dag { nodes: vec![node("read_jsonl", None)], edges: Vec::new() };
    let plan2 = plan_read(&d2, "/x/data.csv", 5).unwrap();
    assert_eq!(plan2.format, InputFormat::JsonLines);
    assert_eq!(plan2.partitions, 5);
}

#[test]
fn dag_without_read_node_is_refused() {
    let dag = Dag { nodes: vec![node("map", None)], edges: Vec::new() };
    assert_eq!(plan_read(&dag, "a.txt", 2).err(), Some(EngineError::NoReadNode));
    assert_eq!(
        execute_wordcount_dag_for_file(&dag, "a.txt", "x", Vec::new(), 2).err(),
        Some(EngineError::NoReadNode)
    );
}

#[test]
fn execute_dag_runs_each_format() {
    let csv = Dag { nodes: vec![node("read_csv", Some(2))], edges: Vec::new() };
    let out = execute_wordcount_dag_for_file(&csv, "in.txt", "id,text\n1,B a\n", Vec::new(), 3).unwrap();
    assert_eq!(out, "a,1\nb,1\n");
    let js = Dag { nodes: vec![node("read_json", None)], edges: Vec::new() };
    let out = execute_wordcount_dag_for_file(&js, "in.txt", "", vec![obj(vec![("text", s("z z"))])], 3).unwrap();
    assert_eq!(out, "z,2\n");
    let tx = Dag { nodes: vec![node("read_text", None)], edges: Vec::new() };
    let out = execute_wordcount_dag_for_file(&tx, "in.csv", "id,text\n", Vec::new(), 3).unwrap();
    assert_eq!(out, "idtext,1\n");
}

#[test]
fn partition_and_spill_paths() {
    let parts = partition_paths("/tmp/w", "stage", 2);
    assert_eq!(parts.len(), 2);
    assert_eq!(parts[1].id, 1);
    assert_eq!(parts[1].path, "/tmp/w/stage/part-1.jsonl");
    assert_eq!(spill_dir_for(&parts[0].path), "/tmp/w/stage/spill_reduce");
    assert_eq!(spill_dir_for("part.jsonl"), "spill_reduce");
    assert_eq!(stage_id_for("wc_stage1", "/in/a.txt", "t9"), "wc_stage1_a.txt_t9");
}

#[test]
fn active_task_runs_in_quanta() {
    let task = Task {
        id: "t".to_string(),
        job_id: "j".to_string(),
        node_id: "wordcount".to_string(),
        attempt: 0,
        stage: 0,
        partition: 0,
        parallelism: 1,
        input_path: "in.txt".to_string(),
        output_path: "out.csv".to_string(),
    };
    let (dag, _) = build_wordcount_dag();
    let recs = read_text_to_records("b a\na\n");
    let mut active = ActiveTask::new(&task, dag, recs);
    assert!(!active.step(2));
    assert!(active.step(2));
    assert_eq!(active.state.output(), "a,2\nb,1\n");
}

#[test]
fn shuffled_join_pairs_partitions_by_id() {
    let p = |id: u32, path: &str| Partition { id, path: path.to_string() };
    let left = vec![p(0, "l0"), p(1, "l1"), p(2, "l2")];
    let right = vec![p(2, "r2"), p(0, "r0a"), p(0, "r0b")];
    assert_eq!(pair_partitions(&left, &right), vec![(0, 2), (2, 0)]);
}

#[test]
fn whitespace_test_agrees_with_std() {
    for code in 0u32..0x3100 {
        if let Some(c) = char::from_u32(code) {
            assert_eq!(sparkmini::tokenize::char_is_white(c), c.is_whitespace(), "{:x}", code);
        }
    }
    assert!(sparkmini::tokenize::char_is_white('\u{3000}'));
    assert!(!sparkmini::tokenize::char_is_white('\u{200b}'));
}

#[test]
fn aggregator_takes_keys_whose_sums_fit_apart() {
    let half = u64::MAX / 2 + 1;
    let mut agg = SpillingAggregator::new("d", 1, 1);
    let mut spilled = Vec::new();
    for k in ["a", "b"] {
        if let Some(sp) = agg.add(k, half) {
            spilled.push(sp.entries);
        }
    }
    assert!(!agg.can_add(1));
    let out = agg.finalize(&spilled);
    assert_eq!(out, format!("a,{}\nb,{}\n", half, half));
}
