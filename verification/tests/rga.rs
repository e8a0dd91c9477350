use json_joy::clock::{ts, tss, Ts};
use json_joy::rga::{Chunk, Rga, IDX_THRESHOLD};

fn origin() -> Ts {
    ts(0, 0)
}

fn sid() -> u64 {
    1
}

#[test]
fn insert_single_chunk() {
    let mut rga: Rga<String> = Rga::new();
    rga.insert(origin(), ts(sid(), 1), 5, "hello".to_string());
    assert_eq!(rga.chunk_count(), 1);
    assert_eq!(rga.iter().next().unwrap().data.as_deref(), Some("hello"));
}

#[test]
fn view_after_insert() {
    let mut rga: Rga<String> = Rga::new();
    rga.insert(origin(), ts(sid(), 1), 5, "hello".to_string());
    let s: String = rga.iter_live().filter_map(|c| c.data.as_deref()).collect();
    assert_eq!(s, "hello");
}

#[test]
fn partial_delete_middle() {
    let mut rga: Rga<String> = Rga::new();
    rga.insert(origin(), ts(1, 1), 5, "hello".to_string());
    rga.delete(&[tss(1, 2, 3)]);
    let s: String = rga.iter_live().filter_map(|c| c.data.as_deref()).collect();
    assert_eq!(s, "ho");
}

#[test]
fn partial_delete_prefix() {
    let mut rga: Rga<String> = Rga::new();
    rga.insert(origin(), ts(1, 1), 5, "hello".to_string());
    rga.delete(&[tss(1, 1, 2)]);
    let s: String = rga.iter_live().filter_map(|c| c.data.as_deref()).collect();
    assert_eq!(s, "llo");
}

#[test]
fn partial_delete_suffix() {
    let mut rga: Rga<String> = Rga::new();
    rga.insert(origin(), ts(1, 1), 5, "hello".to_string());
    rga.delete(&[tss(1, 3, 3)]);
    let s: String = rga.iter_live().filter_map(|c| c.data.as_deref()).collect();
    assert_eq!(s, "he");
}

#[test]
fn delete_full_chunk() {
    let mut rga: Rga<String> = Rga::new();
    rga.insert(origin(), ts(1, 1), 5, "hello".to_string());
    rga.delete(&[tss(1, 1, 5)]);
    let s: String = rga.iter_live().filter_map(|c| c.data.as_deref()).collect();
    assert_eq!(s, "");
}

#[test]
fn two_chunk_delete_spanning_boundary() {
    let mut rga: Rga<String> = Rga::new();
    rga.insert(origin(), ts(1, 1), 2, "he".to_string());
    rga.insert(ts(1, 2), ts(1, 3), 3, "llo".to_string());
    rga.delete(&[tss(1, 2, 2)]);
    let s: String = rga.iter_live().filter_map(|c| c.data.as_deref()).collect();
    assert_eq!(s, "hlo");
}

#[test]
fn concurrent_inserts_converge_regardless_of_application_order() {
    let build = |order: &[(u64, u64)]| -> String {
        let mut rga: Rga<String> = Rga::new();
        rga.insert(origin(), ts(1, 1), 1, "A".to_string());
        for &(sid, time) in order {
            rga.insert(ts(1, 1), ts(sid, time), 1, sid.to_string());
        }
        rga.iter_live().filter_map(|c| c.data.as_deref()).collect()
    };
    let view_a = build(&[(2, 1), (3, 1)]);
    let view_b = build(&[(3, 1), (2, 1)]);
    assert_eq!(view_a, view_b, "concurrent inserts must converge");
    let pos3 = view_a.find('3').unwrap();
    let pos2 = view_a.find('2').unwrap();
    assert!(pos3 < pos2, "higher-priority (sid=3) chunk should precede sid=2 chunk");
}

#[test]
fn split_at_offset_multibyte_chars() {
    let mut rga: Rga<String> = Rga::new();
    rga.insert(origin(), ts(1, 1), 3, "A😀B".to_string());
    rga.delete(&[tss(1, 2, 1)]);
    let s: String = rga.iter_live().filter_map(|c| c.data.as_deref()).collect();
    assert_eq!(s, "AB");
}

#[test]
fn insert_after_mid_chunk_character_with_higher_priority() {
    let mut rga: Rga<String> = Rga::new();
    rga.insert(origin(), ts(1, 1), 5, "hello".to_string());
    rga.insert(ts(1, 3), ts(2, 1000), 1, "X".to_string());
    let s: String = rga.iter_live().filter_map(|c| c.data.as_deref()).collect();
    assert_eq!(s, "helXlo");
}

#[test]
fn push_chunk_builds_sequence_in_order() {
    let mut rga: Rga<String> = Rga::new();
    rga.push_chunk(Chunk::new(ts(1, 1), 5, "hello".to_string()));
    rga.push_chunk(Chunk::new(ts(1, 6), 1, " ".to_string()));
    rga.push_chunk(Chunk::new(ts(1, 7), 5, "world".to_string()));
    let s: String = rga.iter_live().filter_map(|c| c.data.as_deref()).collect();
    assert_eq!(s, "hello world");
    assert_eq!(rga.chunk_count(), 3);
}

#[test]
fn find_by_id_locates_mid_chunk_item() {
    let mut rga: Rga<String> = Rga::new();
    rga.insert(origin(), ts(1, 1), 5, "hello".to_string());
    assert!(rga.find_by_id(ts(1, 3)).is_some());
    assert!(rga.find_by_id(ts(2, 1)).is_none());
}

#[test]
fn find_by_id_works_with_built_index() {
    let mut rga: Rga<String> = Rga::new();
    for i in 0u64..=(IDX_THRESHOLD as u64 + 2) {
        let after = if i == 0 { ts(0, 0) } else { ts(1, i) };
        rga.insert(
            after,
            ts(1, i + 1),
            1,
            char::from_u32('a' as u32 + i as u32).unwrap_or('?').to_string(),
        );
    }
    assert!(rga.is_indexed(), "index should be built after threshold");
    assert!(rga.find_by_id(ts(1, 5)).is_some());
    assert!(rga.find_by_id(ts(2, 1)).is_none());
}

#[test]
fn push_chunk_then_insert_triggers_index_build() {
    let mut rga: Rga<String> = Rga::new();
    let n = IDX_THRESHOLD as u64 + 1;
    for i in 0..n {
        rga.push_chunk(Chunk::new(ts(1, i + 1), 1, "x".to_string()));
    }
    assert!(!rga.is_indexed(), "push_chunk must not build the index");
    rga.insert(ts(1, n), ts(1, n + 1), 1, "y".to_string());
    assert!(rga.is_indexed(), "index should be built after insert crosses threshold");
    let s: String = rga.iter_live().filter_map(|c| c.data.as_deref()).collect();
    assert!(s.ends_with('y'));
}

#[test]
fn index_stays_correct_across_splits_and_deletes() {
    let mut rga: Rga<String> = Rga::new();
    for i in 0u64..20 {
        let after = if i == 0 { ts(0, 0) } else { ts(1, 2 * i) };
        rga.insert(after, ts(1, 2 * i + 1), 2, "ab".to_string());
    }
    assert!(rga.is_indexed());
    // Split a chunk in the middle and delete across chunk boundaries.
    rga.insert(ts(1, 5), ts(2, 100), 1, "X".to_string());
    rga.delete(&[tss(1, 6, 3)]);
    assert!(rga.find_by_id(ts(1, 5)).is_some());
    assert!(rga.find_by_id(ts(2, 100)).is_some());
    assert!(rga.find_by_id(ts(1, 41)).is_none());
    let s: String = rga.iter_live().filter_map(|c| c.data.as_deref()).collect();
    assert_eq!(s.len(), 40 + 1 - 3);
}

#[test]
fn empty_delete_inside_chunk_deletes_nothing() {
    let mut rga: Rga<String> = Rga::new();
    rga.insert(origin(), ts(1, 1), 5, "hello".to_string());
    rga.delete(&[tss(1, 3, 0)]);
    let s: String = rga.iter_live().filter_map(|c| c.data.as_deref()).collect();
    assert_eq!(s, "hello");
    assert_eq!(rga.chunk_count(), 1);
}
