//! Chunk keys, the chunk file format, and load/save against the store.

use mapeditor::codec::{decode_chunk, encode_chunk};
use mapeditor::coord::key_of;
use mapeditor::map_data::{create_file, is_map_exist, load_file, MapData};
use mapeditor::store::FileStore;

fn chars(s: &str) -> Vec<char> {
    s.chars().collect()
}

#[test]
fn key_format_is_x_y_group() {
    assert_eq!(key_of(0, 0, 0), "0_0_0");
    assert_eq!(key_of(-3, 7, 42), "-3_7_42");
    assert_eq!(key_of(2147483647, -2147483648, 18446744073709551615), "2147483647_-2147483648_18446744073709551615");
}

#[test]
fn key_distinguishes_triples() {
    // ambiguity candidates around the underscore separators
    assert_ne!(key_of(1, 11, 0), key_of(11, 1, 0));
    assert_ne!(key_of(-1, 1, 0), key_of(1, -1, 0));
    assert_ne!(key_of(0, 0, 10), key_of(0, 1, 0));
}

#[test]
fn encode_then_decode_is_lossless() {
    let mut m = MapData::default(-7, 31, 99);
    // arbitrary ids across the u32 range, including zeros
    for l in 0..8usize {
        for i in 0..1024usize {
            let v = ((l as u32).wrapping_mul(2654435761).wrapping_add(i as u32 * 2246822519)) % 7;
            m.tile[l].id[i] = if v == 0 { 0 } else { v.wrapping_mul(613) };
        }
    }
    m.tile[0].id[0] = u32::MAX;
    m.tile[7].id[1023] = 1;
    let content = encode_chunk(&m);
    let back = decode_chunk(&content).expect("canonical content must parse");
    assert_eq!(back.x, -7);
    assert_eq!(back.y, 31);
    assert_eq!(back.group, 99);
    for l in 0..8usize {
        assert_eq!(back.tile[l].id, m.tile[l].id);
    }
}

#[test]
fn decode_rejects_malformed_content() {
    assert!(decode_chunk(&chars("")).is_none());
    assert!(decode_chunk(&chars("{}")).is_none());
    assert!(decode_chunk(&chars("not json at all")).is_none());
    // leading zero is not canonical
    let good = encode_chunk(&MapData::default(1, 2, 3));
    let mut s: String = good.iter().collect();
    s = s.replace("\"group\":3", "\"group\":03");
    assert!(decode_chunk(&chars(&s)).is_none());
    // truncated content
    let mut cut = good.clone();
    cut.pop();
    assert!(decode_chunk(&cut).is_none());
    // trailing garbage
    let mut long = good.clone();
    long.push(' ');
    assert!(decode_chunk(&long).is_none());
}

#[test]
fn decode_rejects_wrong_shape() {
    // seven layers instead of eight
    let m = MapData::default(0, 0, 0);
    let s: String = encode_chunk(&m).iter().collect();
    let layer = format!("{{\"id\":[{}]}},", vec!["0"; 1024].join(","));
    let shorter = s.replacen(&layer, "", 1);
    assert!(decode_chunk(&chars(&shorter)).is_none());
    // an id beyond u32
    let huge = s.replacen("\"id\":[0,", "\"id\":[4294967296,", 1);
    assert!(decode_chunk(&chars(&huge)).is_none());
}

#[test]
fn load_missing_chunk_creates_one_default_file() {
    let mut store = FileStore::new();
    let m = load_file(&mut store, 4, -2, 9);
    assert_eq!((m.x, m.y, m.group), (4, -2, 9));
    assert!(m.tile.iter().all(|t| t.id.iter().all(|&v| v == 0)));
    assert_eq!(store.files.len(), 1);
    assert!(is_map_exist(&store, 4, -2, 9));
    let on_disk = store.read_file(4, -2, 9).unwrap();
    let expected = encode_chunk(&MapData::default(4, -2, 9));
    assert_eq!(on_disk, &expected);
}

#[test]
fn load_malformed_chunk_returns_default_and_keeps_file() {
    let mut store = FileStore::new();
    let bad = chars("{\"x\":definitely broken");
    store.write_file(2, 2, 2, bad.clone());
    let m = load_file(&mut store, 2, 2, 2);
    assert_eq!((m.x, m.y, m.group), (2, 2, 2));
    assert!(m.tile.iter().all(|t| t.id.iter().all(|&v| v == 0)));
    assert_eq!(store.files.len(), 1);
    assert_eq!(store.read_file(2, 2, 2).unwrap(), &bad);
}

#[test]
fn load_existing_chunk_returns_its_contents() {
    let mut store = FileStore::new();
    let mut m = MapData::default(1, 2, 3);
    m.tile[4].id[100] = 77;
    m.save_file(&mut store);
    let back = load_file(&mut store, 1, 2, 3);
    assert_eq!(back.tile[4].id[100], 77);
    assert_eq!(back.tile[0].id[0], 0);
}

#[test]
fn create_file_never_overwrites() {
    let mut store = FileStore::new();
    let mut first = MapData::default(0, 0, 5);
    first.tile[0].id[0] = 11;
    create_file(&mut store, 0, 0, 5, &first);
    let second = MapData::default(0, 0, 5);
    create_file(&mut store, 0, 0, 5, &second);
    let back = load_file(&mut store, 0, 0, 5);
    assert_eq!(back.tile[0].id[0], 11);
}

#[test]
fn save_file_overwrites() {
    let mut store = FileStore::new();
    let mut m = MapData::default(0, 0, 5);
    m.tile[0].id[0] = 11;
    m.save_file(&mut store);
    m.tile[0].id[0] = 22;
    m.save_file(&mut store);
    assert_eq!(store.files.len(), 1);
    let back = load_file(&mut store, 0, 0, 5);
    assert_eq!(back.tile[0].id[0], 22);
}
