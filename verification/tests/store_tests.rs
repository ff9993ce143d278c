use diskmap::codec::Entry;
use diskmap::store::DiskMap;
use diskmap::StoreError;

fn empty_store() -> DiskMap {
    DiskMap::new(Vec::new())
}

#[test]
fn get_on_empty_store_not_found() {
    let m = empty_store();
    assert_eq!(m.get("a"), Err(StoreError::NotFound));
}

#[test]
fn set_then_get() {
    let mut m = empty_store();
    let n = m.set("a", "1").unwrap();
    assert_eq!(n, 11);
    assert_eq!(m.get("a").unwrap(), "1");
    assert_eq!(m.get("b"), Err(StoreError::NotFound));
}

#[test]
fn set_overwrites() {
    let mut m = empty_store();
    m.set("a", "1").unwrap();
    m.set("a", "2").unwrap();
    assert_eq!(m.get("a").unwrap(), "2");
    let d = m.dump().unwrap();
    assert_eq!(d, vec![("a".to_string(), "2".to_string())]);
}

#[test]
fn delete_then_get_not_found() {
    let mut m = empty_store();
    m.set("a", "1").unwrap();
    m.delete("a").unwrap();
    assert_eq!(m.get("a"), Err(StoreError::NotFound));
}

#[test]
fn delete_missing_key_not_found() {
    let mut m = empty_store();
    m.set("a", "1").unwrap();
    assert_eq!(m.delete("b"), Err(StoreError::NotFound));
    // the failed delete wrote nothing
    assert_eq!(m.size(), 11);
}

#[test]
fn delete_flips_liveness_in_place() {
    let mut m = empty_store();
    m.set("a", "1").unwrap();
    let before = m.size();
    m.delete("a").unwrap();
    assert_eq!(m.size(), before);
    assert_eq!(m.as_bytes()[0], 0);
}

#[test]
fn set_tombstones_old_record() {
    let mut m = empty_store();
    m.set("a", "1").unwrap();
    m.set("a", "2").unwrap();
    // first record dead in place, fresh record appended
    assert_eq!(m.size(), 22);
    assert_eq!(m.as_bytes()[0], 0);
    assert_eq!(m.as_bytes()[11], 1);
}

#[test]
fn compact_preserves_live_drops_dead() {
    let mut m = empty_store();
    m.set("a", "1").unwrap();
    m.set("a", "2").unwrap();
    assert_eq!(m.delete("b"), Err(StoreError::NotFound));
    let before = m.size();
    let after = m.compact().unwrap();
    assert_eq!(m.size(), after);
    assert!(after < before);
    let d = m.dump().unwrap();
    assert_eq!(d, vec![("a".to_string(), "2".to_string())]);
}

#[test]
fn compact_without_dead_records_keeps_size() {
    let mut m = empty_store();
    m.set("a", "1").unwrap();
    m.set("b", "2").unwrap();
    let before = m.size();
    let after = m.compact().unwrap();
    assert_eq!(after, before);
    assert_eq!(m.get("a").unwrap(), "1");
    assert_eq!(m.get("b").unwrap(), "2");
}

#[test]
fn dump_idempotent() {
    let mut m = empty_store();
    m.set("a", "1").unwrap();
    m.set("b", "2").unwrap();
    let d1 = m.dump().unwrap();
    let d2 = m.dump().unwrap();
    assert_eq!(d1, d2);
}

#[test]
fn dump_in_file_order() {
    let mut m = empty_store();
    m.set("b", "2").unwrap();
    m.set("a", "1").unwrap();
    let d = m.dump().unwrap();
    assert_eq!(
        d,
        vec![("b".to_string(), "2".to_string()), ("a".to_string(), "1".to_string())]
    );
}

#[test]
fn find_key_reports_offset() {
    let mut m = empty_store();
    m.set("a", "1").unwrap();
    m.set("b", "2").unwrap();
    let e = m.find_key("b").unwrap();
    assert_eq!(e.offset, 11);
    assert!(e.live);
    assert_eq!(e.value, "2");
    assert!(m.find_key("c").is_none());
}

#[test]
fn corrupt_log_reported() {
    // a liveness byte alone is no record
    let m = DiskMap::new(vec![1u8, 0, 0]);
    assert_eq!(m.get("a"), Err(StoreError::Corruption));
    assert_eq!(m.dump(), Err(StoreError::Corruption));
    let mut m2 = DiskMap::new(vec![1u8, 0, 0]);
    assert_eq!(m2.set("a", "1"), Err(StoreError::Corruption));
    assert_eq!(m2.delete("a"), Err(StoreError::Corruption));
    assert_eq!(m2.compact(), Err(StoreError::Corruption));
    // nothing was written
    assert_eq!(m2.size(), 3);
}

#[test]
fn store_reopens_from_bytes() {
    let mut m = empty_store();
    m.set("a", "1").unwrap();
    m.set("b", "2").unwrap();
    m.delete("a").unwrap();
    let reopened = DiskMap::new(m.as_bytes().clone());
    assert_eq!(reopened.get("a"), Err(StoreError::NotFound));
    assert_eq!(reopened.get("b").unwrap(), "2");
}

#[test]
fn empty_value_roundtrip_through_store() {
    let mut m = empty_store();
    m.set("k", "").unwrap();
    assert_eq!(m.get("k").unwrap(), "");
}

#[test]
fn at_most_one_live_per_key() {
    let mut m = empty_store();
    m.set("a", "1").unwrap();
    m.set("a", "2").unwrap();
    m.set("a", "3").unwrap();
    m.delete("a").unwrap();
    m.set("a", "4").unwrap();
    // scan the raw log: exactly one live record for "a"
    let bytes = m.as_bytes().clone();
    let mut live_a = 0;
    let mut off = 0;
    while let Some(e) = Entry::from_bytes(&bytes, off) {
        if e.live && e.key == "a" {
            live_a += 1;
        }
        off += e.len;
        if off >= bytes.len() {
            break;
        }
    }
    assert_eq!(live_a, 1);
    assert_eq!(m.get("a").unwrap(), "4");
}

#[test]
fn first_live_match_is_authoritative() {
    // two live records for one key never arise from set/delete; built by
    // hand, the scan answers from the first one
    let mut log = Entry::new("a", "1").to_bytes().unwrap();
    log.extend_from_slice(&Entry::new("a", "2").to_bytes().unwrap());
    let m = DiskMap::new(log);
    assert_eq!(m.get("a").unwrap(), "1");
}
