//! Interpretation of a job's DAG for one input file: the read node decides
//! the input format and the partition count of the fixed word-count
//! pipeline.
use vstd::prelude::*;
use crate::dag::{Dag, DagNode};
use crate::engine::record_tokens;
use crate::text::{base_name, chars_of, file_name_of, owned, text_eq};
use crate::value::Value;
use crate::wordcount::{
    csv_tokens, text_tokens, wordcount_csv_file_shuffled_local, wordcount_file_shuffled_local,
    wordcount_jsonl_file_shuffled_local, wordcount_output,
};
use crate::readers::{csv_names, csv_rows};

verus! {

#[derive(Debug, Clone, Copy, PartialEq, Eq, Structural)]
pub enum InputFormat {
    Csv,
    JsonLines,
    Text,
}

#[derive(Debug, Clone, Copy, PartialEq, Eq, Structural)]
pub enum EngineError {
    /// The DAG has no node whose operator starts with `read_`.
    NoReadNode,
}

/// How one input file is read.
#[derive(Debug, Clone, Copy, PartialEq, Eq, Structural)]
pub struct ReadPlan {
    pub format: InputFormat,
    /// At least 1.
    pub partitions: u32,
}

/// An operator that reads input.
pub open spec fn is_read_op(op: Seq<char>) -> bool {
    op.len() >= 5 && op.take(5) == "read_"@
}

/// The index of the first read node of `nodes`.
pub open spec fn first_read(nodes: Seq<DagNode>) -> Option<int> {
    if exists|i: int|
        0 <= i < nodes.len() && is_read_op(nodes[i].op@) && forall|k: int|
            0 <= k < i ==> !is_read_op(nodes[k].op@) {
        Some(
            choose|i: int|
                0 <= i < nodes.len() && is_read_op(nodes[i].op@) && forall|k: int|
                    0 <= k < i ==> !is_read_op(nodes[k].op@),
        )
    } else {
        None
    }
}

/// The extension of the file name of `path`: what follows its last `.`,
/// unless that dot starts the name or there is none.
pub open spec fn extension(path: Seq<char>) -> Option<Seq<char>> {
    let name = base_name(path);
    if exists|i: int| 0 < i < name.len() && name[i] == '.' {
        let i = choose|i: int|
            0 < i < name.len() && name[i] == '.' && forall|k: int| i < k < name.len() ==> name[k] != '.';
        Some(name.skip(i + 1))
    } else {
        None
    }
}

/// The upper-case form of the lower-case letters that extensions use.
pub open spec fn upper(c: char) -> char {
    if c == 'c' {
        'C'
    } else if c == 's' {
        'S'
    } else if c == 'v' {
        'V'
    } else if c == 'j' {
        'J'
    } else if c == 'o' {
        'O'
    } else if c == 'n' {
        'N'
    } else if c == 'l' {
        'L'
    } else {
        c
    }
}

/// Whether `a` is the lower-case word `w` in any ASCII case.
pub open spec fn same_word(a: Seq<char>, w: Seq<char>) -> bool {
    a.len() == w.len() && forall|i: int| 0 <= i < a.len() ==> a[i] == w[i] || a[i] == upper(w[i])
}

/// The format of a read operator, or, for one that names none, of the
/// file's extension.
pub open spec fn format_for(op: Seq<char>, path: Seq<char>) -> InputFormat {
    if op == "read_csv"@ {
        InputFormat::Csv
    } else if op == "read_jsonl"@ || op == "read_json"@ {
        InputFormat::JsonLines
    } else if op == "read_text"@ || op == "read_text_glob"@ {
        InputFormat::Text
    } else {
        match extension(path) {
            Some(e) => if same_word(e, "csv"@) {
                InputFormat::Csv
            } else if same_word(e, "json"@) || same_word(e, "jsonl"@) {
                InputFormat::JsonLines
            } else {
                InputFormat::Text
            },
            None => InputFormat::Text,
        }
    }
}

/// The partition count of a read node: its own, else the default, and at
/// least 1.
pub open spec fn partitions_for(node: DagNode, default: u32) -> u32 {
    let p = match node.partitions {
        Some(p) => p,
        None => default,
    };
    if p == 0 {
        1
    } else {
        p
    }
}

/// Whether `op` starts with `read_`.
pub fn is_read(op: &str) -> (r: bool)
    ensures
        r == is_read_op(op@),
{
    let a = chars_of(op);
    let p = chars_of("read_");
    proof {
        reveal_strlit("read_");
    }
    if a.len() < 5 {
        return false;
    }
    let mut i: usize = 0;
    while i < 5
        invariant
            i <= 5,
            a@.len() >= 5,
            a@ == op@,
            p@ == "read_"@,
            p@.len() == 5,
            a@.take(i as int) == p@.take(i as int),
        decreases 5 - i,
    {
        if a[i] != p[i] {
            assert(a@.take(5)[i as int] != p@[i as int]);
            assert(a@.take(5) != p@);
            return false;
        }
        assert(a@.take(i + 1) =~= a@.take(i as int).push(a@[i as int]));
        assert(p@.take(i + 1) =~= p@.take(i as int).push(p@[i as int]));
        i += 1;
    }
    assert(p@.take(5) =~= p@);
    true
}

/// The index of the first read node.
pub fn find_read_node(dag: &Dag) -> (r: Option<usize>)
    ensures
        match r {
            Some(i) => i < dag.nodes@.len() && first_read(dag.nodes@) == Some(i as int),
            None => first_read(dag.nodes@) is None,
        },
        first_read(dag.nodes@) matches Some(i) ==> 0 <= i < dag.nodes@.len(),
{
    let mut i: usize = 0;
    while i < dag.nodes.len()
        invariant
            i <= dag.nodes@.len(),
            forall|k: int| 0 <= k < i ==> !is_read_op(dag.nodes@[k].op@),
        decreases dag.nodes@.len() - i,
    {
        if is_read(dag.nodes[i].op.as_str()) {
            proof {
                let c = choose|c: int|
                    0 <= c < dag.nodes@.len() && is_read_op(dag.nodes@[c].op@) && forall|k: int|
                        0 <= k < c ==> !is_read_op(dag.nodes@[k].op@);
                assert(c == i) by {
                    if c < i {
                    } else if c > i {
                        assert(!is_read_op(dag.nodes@[i as int].op@));
                    }
                }
            }
            return Some(i);
        }
        i += 1;
    }
    None
}

/// The extension of the file name of `path`.
pub fn file_extension(path: &str) -> (r: Option<Vec<char>>)
    ensures
        match r {
            Some(e) => extension(path@) == Some(e@),
            None => extension(path@) is None,
        },
{
    let name = chars_of(file_name_of(path).as_str());
    let ghost nm = base_name(path@);
    let mut i: usize = name.len();
    while i > 0 && name[i - 1] != '.'
        invariant
            i <= name@.len(),
            name@ == nm,
            forall|k: int| i <= k < name@.len() ==> name@[k] != '.',
        decreases i,
    {
        i -= 1;
    }
    if i <= 1 {
        proof {
            if exists|j: int| 0 < j < nm.len() && nm[j] == '.' {
                let j = choose|j: int| 0 < j < nm.len() && nm[j] == '.';
                assert(j < i);
            }
        }
        return None;
    }
    let dot = i - 1;
    let mut out: Vec<char> = Vec::new();
    let mut j: usize = i;
    while j < name.len()
        invariant
            i <= j <= name@.len(),
            out@ == name@.subrange(i as int, j as int),
        decreases name@.len() - j,
    {
        out.push(name[j]);
        j += 1;
        assert(out@ =~= name@.subrange(i as int, j as int));
    }
    proof {
        assert(0 < dot < nm.len() && nm[dot as int] == '.');
        let c = choose|c: int|
            0 < c < nm.len() && nm[c] == '.' && forall|k: int| c < k < nm.len() ==> nm[k] != '.';
        assert(c == dot) by {
            if c < dot {
                assert(nm[dot as int] != '.');
            }
        }
        assert(out@ =~= nm.skip(dot + 1));
    }
    Some(out)
}

fn same_word_exec(a: &Vec<char>, w: &str) -> (r: bool)
    ensures
        r == same_word(a@, w@),
{
    let b = chars_of(w);
    if a.len() != b.len() {
        return false;
    }
    let mut i: usize = 0;
    while i < a.len()
        invariant
            i <= a@.len(),
            a@.len() == b@.len(),
            b@ == w@,
            forall|k: int| 0 <= k < i ==> a@[k] == b@[k] || a@[k] == upper(b@[k]),
        decreases a@.len() - i,
    {
        let c = b[i];
        let u = if c == 'c' {
            'C'
        } else if c == 's' {
            'S'
        } else if c == 'v' {
            'V'
        } else if c == 'j' {
            'J'
        } else if c == 'o' {
            'O'
        } else if c == 'n' {
            'N'
        } else if c == 'l' {
            'L'
        } else {
            c
        };
        if a[i] != c && a[i] != u {
            return false;
        }
        i += 1;
    }
    true
}

/// The read plan of `dag` for the file `input_path`.
pub fn plan_read(dag: &Dag, input_path: &str, default_num_partitions: u32) -> (r: Result<ReadPlan, EngineError>)
    ensures
        match first_read(dag.nodes@) {
            None => r == Err::<ReadPlan, EngineError>(EngineError::NoReadNode),
            Some(i) => r == Ok::<ReadPlan, EngineError>(
                ReadPlan {
                    format: format_for(dag.nodes@[i].op@, input_path@),
                    partitions: partitions_for(dag.nodes@[i], default_num_partitions),
                },
            ),
        },
{
    let idx = match find_read_node(dag) {
        Some(i) => i,
        None => return Err(EngineError::NoReadNode),
    };
    let node = &dag.nodes[idx];
    let p = match node.partitions {
        Some(p) => p,
        None => default_num_partitions,
    };
    let partitions = if p == 0 {
        1
    } else {
        p
    };
    let op = node.op.as_str();
    let format = if text_eq(op, "read_csv") {
        InputFormat::Csv
    } else if text_eq(op, "read_jsonl") || text_eq(op, "read_json") {
        InputFormat::JsonLines
    } else if text_eq(op, "read_text") || text_eq(op, "read_text_glob") {
        InputFormat::Text
    } else {
        match file_extension(input_path) {
            Some(e) => if same_word_exec(&e, "csv") {
                InputFormat::Csv
            } else if same_word_exec(&e, "json") || same_word_exec(&e, "jsonl") {
                InputFormat::JsonLines
            } else {
                InputFormat::Text
            },
            None => InputFormat::Text,
        }
    };
    Ok(ReadPlan { format, partitions })
}

/// The word count of one input file as the DAG's read node asks for it:
/// `content` is the file's text and, for the JSON-lines format, `decoded`
/// holds the documents of its non-blank lines. CSV and JSON-lines inputs
/// are counted from their `text` field. The partition count does not
/// change the result.
pub fn execute_wordcount_dag_for_file(
    dag: &Dag,
    input_path: &str,
    content: &str,
    decoded: Vec<Value>,
    default_num_partitions: u32,
) -> (r: Result<String, EngineError>)
    ensures
        match first_read(dag.nodes@) {
            None => r == Err::<String, EngineError>(EngineError::NoReadNode),
            Some(i) => r is Ok && r->Ok_0@ == match format_for(dag.nodes@[i].op@, input_path@) {
                InputFormat::Csv => wordcount_output(
                    csv_tokens(csv_names(content@), csv_rows(content@), "text"@),
                ),
                InputFormat::JsonLines => wordcount_output(record_tokens(decoded@, "text"@)),
                InputFormat::Text => wordcount_output(text_tokens(content@)),
            },
        },
{
    let plan = match plan_read(dag, input_path, default_num_partitions) {
        Ok(p) => p,
        Err(e) => return Err(e),
    };
    let out = match plan.format {
        InputFormat::Csv => wordcount_csv_file_shuffled_local(content, "text", plan.partitions),
        InputFormat::JsonLines => wordcount_jsonl_file_shuffled_local(decoded, "text", plan.partitions),
        InputFormat::Text => wordcount_file_shuffled_local(content, plan.partitions),
    };
    Ok(out)
}

fn node(id: &str, op: &str, path: Option<String>, partitions: Option<u32>, fn_name: Option<&str>, key: Option<&str>) -> (r: DagNode)
    ensures
        r.id@ == id@,
        r.op@ == op@,
        r.path == path,
        r.partitions == partitions,
        match fn_name {
            Some(f) => r.fn_name is Some && r.fn_name->0@ == f@,
            None => r.fn_name is None,
        },
        match key {
            Some(k) => r.key is Some && r.key->0@ == k@,
            None => r.key is None,
        },
{
    DagNode {
        id: owned(id),
        op: owned(op),
        path,
        partitions,
        fn_name: match fn_name {
            Some(f) => Some(owned(f)),
            None => None,
        },
        key: match key {
            Some(k) => Some(owned(k)),
            None => None,
        },
    }
}

/// The fixed word-count DAG `read → flat → map1 → agg` and its input glob
/// `/data/input/*`: a `read_text` node over the glob with 4 partitions,
/// `flat_map(tokenize)`, `map(to_lower)` and `reduce_by_key(sum)` on
/// `token`.
pub fn build_wordcount_dag() -> (r: (Dag, String))
    ensures
        r.1@ == "/data/input/*"@,
        r.0.nodes@.len() == 4,
        r.0.nodes@[0].id@ == "read"@ && r.0.nodes@[0].op@ == "read_text"@
            && r.0.nodes@[0].partitions == Some(4u32) && r.0.nodes@[0].path is Some
            && r.0.nodes@[0].path->0@ == "/data/input/*"@,
        r.0.nodes@[1].id@ == "flat"@ && r.0.nodes@[1].op@ == "flat_map"@
            && r.0.nodes@[1].fn_name is Some && r.0.nodes@[1].fn_name->0@ == "tokenize"@,
        r.0.nodes@[2].id@ == "map1"@ && r.0.nodes@[2].op@ == "map"@
            && r.0.nodes@[2].fn_name is Some && r.0.nodes@[2].fn_name->0@ == "to_lower"@,
        r.0.nodes@[3].id@ == "agg"@ && r.0.nodes@[3].op@ == "reduce_by_key"@
            && r.0.nodes@[3].fn_name is Some && r.0.nodes@[3].fn_name->0@ == "sum"@
            && r.0.nodes@[3].key is Some && r.0.nodes@[3].key->0@ == "token"@,
        r.0.edges@.len() == 3,
        r.0.edges@[0].0@ == "read"@ && r.0.edges@[0].1@ == "flat"@,
        r.0.edges@[1].0@ == "flat"@ && r.0.edges@[1].1@ == "map1"@,
        r.0.edges@[2].0@ == "map1"@ && r.0.edges@[2].1@ == "agg"@,
{
    let input_glob = owned("/data/input/*");
    let read = node("read", "read_text", Some(input_glob.clone()), Some(4), None, None);
    let flat = node("flat", "flat_map", None, None, Some("tokenize"), None);
    let map1 = node("map1", "map", None, None, Some("to_lower"), None);
    let agg = node("agg", "reduce_by_key", None, None, Some("sum"), Some("token"));
    let dag = Dag {
        nodes: vec![read, flat, map1, agg],
        edges: vec![
            (owned("read"), owned("flat")),
            (owned("flat"), owned("map1")),
            (owned("map1"), owned("agg")),
        ],
    };
    (dag, input_glob)
}

} // verus!
