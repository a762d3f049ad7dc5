//! Round-trip of a snapshot through a self-describing JSON form and a
//! compact binary CBOR form: decoding what was encoded reproduces a
//! structurally equal tree with equal bytes in every metrics field.

use snapdb::db::Database;
use snapdb::metrics::{compute_metrics, HashSum, Metrics};
use snapdb::tree::Entry;

fn path(segs: &[&str]) -> Vec<Vec<u8>> {
    segs.iter().map(|s| s.as_bytes().to_vec()).collect()
}

fn sample_database() -> Database {
    let mut db = Database::default();
    db.insert(&path(&["docs", "a.txt"]), Entry::File(compute_metrics(b"alpha")));
    db.insert(&path(&["docs", "b.bin"]), Entry::File(compute_metrics(&[0, 1, 2, 0xff])));
    db.insert(&path(&["empty"]), Entry::File(compute_metrics(b"")));
    db.insert(
        &path(&["zz", "deep", "leaf"]),
        Entry::File(Metrics {
            sha2: HashSum(vec![7; 32]),
            sha3: HashSum(vec![9; 32]),
            size: u64::MAX,
            nul: true,
            nonascii: true,
        }),
    );
    db
}

// ---- JSON form ----

fn json_of_entry(e: &Entry) -> serde_json::Value {
    let mut outer = serde_json::Map::new();
    match e {
        Entry::Directory(es) => {
            let mut m = serde_json::Map::new();
            for (k, v) in es {
                m.insert(String::from_utf8(k.clone()).unwrap(), json_of_entry(v));
            }
            outer.insert("Directory".to_string(), serde_json::Value::Object(m));
        }
        Entry::File(mt) => {
            let mut f = serde_json::Map::new();
            let bytes_value = |b: &Vec<u8>| {
                serde_json::Value::Array(
                    b.iter().map(|x| serde_json::Value::from(*x)).collect(),
                )
            };
            f.insert("sha2".to_string(), bytes_value(&mt.sha2.0));
            f.insert("sha3".to_string(), bytes_value(&mt.sha3.0));
            f.insert("size".to_string(), serde_json::Value::from(mt.size));
            f.insert("nul".to_string(), serde_json::Value::Bool(mt.nul));
            f.insert("nonascii".to_string(), serde_json::Value::Bool(mt.nonascii));
            outer.insert("File".to_string(), serde_json::Value::Object(f));
        }
    }
    serde_json::Value::Object(outer)
}

fn entry_of_json(v: &serde_json::Value) -> Entry {
    let outer = v.as_object().expect("entry must be an object");
    if let Some(children) = outer.get("Directory") {
        let children = children.as_object().expect("directory must be an object");
        let mut es: Vec<(Vec<u8>, Entry)> = Vec::new();
        for (k, child) in children {
            es.push((k.as_bytes().to_vec(), entry_of_json(child)));
        }
        Entry::Directory(es)
    } else {
        let f = outer
            .get("File")
            .expect("entry must be Directory or File")
            .as_object()
            .expect("file must be an object");
        let bytes_of = |v: &serde_json::Value| -> Vec<u8> {
            v.as_array()
                .expect("digest must be an array")
                .iter()
                .map(|x| x.as_u64().expect("digest byte") as u8)
                .collect()
        };
        Entry::File(Metrics {
            sha2: HashSum(bytes_of(&f["sha2"])),
            sha3: HashSum(bytes_of(&f["sha3"])),
            size: f["size"].as_u64().expect("size"),
            nul: f["nul"].as_bool().expect("nul"),
            nonascii: f["nonascii"].as_bool().expect("nonascii"),
        })
    }
}

#[test]
fn json_round_trip_reproduces_the_snapshot() {
    let db = sample_database();
    let encoded = serde_json::to_string(&json_of_entry(&db.0)).expect("encode");
    let decoded: serde_json::Value = serde_json::from_str(&encoded).expect("decode");
    let back = Database(entry_of_json(&decoded));
    assert_eq!(back, db);
}

// ---- CBOR form ----

fn cbor_of_entry(e: &Entry) -> serde_cbor::Value {
    let mut outer = std::collections::BTreeMap::new();
    match e {
        Entry::Directory(es) => {
            let mut m = std::collections::BTreeMap::new();
            for (k, v) in es {
                m.insert(
                    serde_cbor::Value::Bytes(k.clone()),
                    cbor_of_entry(v),
                );
            }
            outer.insert(
                serde_cbor::Value::Text("Directory".to_string()),
                serde_cbor::Value::Map(m),
            );
        }
        Entry::File(mt) => {
            let mut f = std::collections::BTreeMap::new();
            f.insert(
                serde_cbor::Value::Text("sha2".to_string()),
                serde_cbor::Value::Bytes(mt.sha2.0.clone()),
            );
            f.insert(
                serde_cbor::Value::Text("sha3".to_string()),
                serde_cbor::Value::Bytes(mt.sha3.0.clone()),
            );
            f.insert(
                serde_cbor::Value::Text("size".to_string()),
                serde_cbor::Value::Integer(mt.size as i128),
            );
            f.insert(
                serde_cbor::Value::Text("nul".to_string()),
                serde_cbor::Value::Bool(mt.nul),
            );
            f.insert(
                serde_cbor::Value::Text("nonascii".to_string()),
                serde_cbor::Value::Bool(mt.nonascii),
            );
            outer.insert(
                serde_cbor::Value::Text("File".to_string()),
                serde_cbor::Value::Map(f),
            );
        }
    }
    serde_cbor::Value::Map(outer)
}

fn cbor_text(s: &str) -> serde_cbor::Value {
    serde_cbor::Value::Text(s.to_string())
}

fn entry_of_cbor(v: &serde_cbor::Value) -> Entry {
    let outer = match v {
        serde_cbor::Value::Map(m) => m,
        _ => panic!("entry must be a map"),
    };
    if let Some(children) = outer.get(&cbor_text("Directory")) {
        let children = match children {
            serde_cbor::Value::Map(m) => m,
            _ => panic!("directory must be a map"),
        };
        let mut es: Vec<(Vec<u8>, Entry)> = Vec::new();
        for (k, child) in children {
            let key = match k {
                serde_cbor::Value::Bytes(b) => b.clone(),
                _ => panic!("segment must be bytes"),
            };
            es.push((key, entry_of_cbor(child)));
        }
        // the CBOR map keeps its keys in canonical CBOR order (length
        // first); the snapshot tree orders segments lexicographically
        es.sort_by(|a, b| a.0.cmp(&b.0));
        Entry::Directory(es)
    } else {
        let f = match outer.get(&cbor_text("File")).expect("Directory or File") {
            serde_cbor::Value::Map(m) => m,
            _ => panic!("file must be a map"),
        };
        let bytes_of = |v: &serde_cbor::Value| -> Vec<u8> {
            match v {
                serde_cbor::Value::Bytes(b) => b.clone(),
                _ => panic!("digest must be bytes"),
            }
        };
        let int_of = |v: &serde_cbor::Value| -> u64 {
            match v {
                serde_cbor::Value::Integer(i) => u64::try_from(*i).expect("size"),
                _ => panic!("size must be an integer"),
            }
        };
        let bool_of = |v: &serde_cbor::Value| -> bool {
            match v {
                serde_cbor::Value::Bool(b) => *b,
                _ => panic!("flag must be a bool"),
            }
        };
        Entry::File(Metrics {
            sha2: HashSum(bytes_of(&f[&cbor_text("sha2")])),
            sha3: HashSum(bytes_of(&f[&cbor_text("sha3")])),
            size: int_of(&f[&cbor_text("size")]),
            nul: bool_of(&f[&cbor_text("nul")]),
            nonascii: bool_of(&f[&cbor_text("nonascii")]),
        })
    }
}

#[test]
fn cbor_round_trip_reproduces_the_snapshot() {
    let db = sample_database();
    let v = cbor_of_entry(&db.0);
    if Database(entry_of_cbor(&v)) != db {
        panic!("value conversion alone does not round-trip");
    }
    let encoded = serde_cbor::to_vec(&v).expect("encode");
    let decoded: serde_cbor::Value = serde_cbor::from_slice(&encoded).expect("decode");
    if decoded != v {
        panic!("cbor value changed across serialization");
    }
    let back = Database(entry_of_cbor(&decoded));
    assert_eq!(back, db);
}
