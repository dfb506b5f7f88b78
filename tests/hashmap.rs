use exercises::bucket_list::BucketList;
use exercises::hashing::{hash, hash_raw, MHash};
use exercises::hmap::HMap;

#[test]
fn test_hashing_strings() {
    let value_hash = hash(55, "cat");

    assert_eq!(value_hash, hash(55, "cat"));
    assert_ne!(value_hash, hash(55, "tac"));
}

#[test]
fn test_hashing_numbers() {
    let mut previous_hash = 0;

    for value in 0..10000 {
        let value_hash = hash(55, value);
        assert_ne!(value_hash, previous_hash);
        previous_hash = value_hash;
    }
}

#[test]
fn hash_exact_values() {
    assert_eq!(hash(55, "cat"), 81689447816602278);
    assert_eq!(hash_raw(0, &[]), 9720791080);
    assert_eq!(hash_raw(1, b"a"), 1152646011537);
    assert_eq!(hash(55, 7i32), 2258528602298371);
}

#[test]
fn hasher_state_runs_through_writes() {
    let mut hasher = MHash::new();
    assert_eq!(hasher.finish(), 0);
    hasher.write(&55u64.to_le_bytes());
    hasher.write(b"cat");
    assert_eq!(hasher.finish(), hash(55, "cat"));
}

#[test]
fn hash_is_deterministic() {
    for seed in [0u64, 1, 55, u64::MAX] {
        assert_eq!(hash(seed, "value"), hash(seed, "value"));
        assert_eq!(hash(seed, 12345u64), hash(seed, 12345u64));
    }
}

#[test]
fn hash_depends_on_seed() {
    let mut digests = Vec::new();
    for seed in 0..1000u64 {
        digests.push(hash(seed, "same value"));
    }
    digests.sort();
    digests.dedup();
    assert_eq!(digests.len(), 1000);
}

#[test]
fn test_push_get() {
    let mut list = BucketList::new();

    list.push("foo", 123);
    list.push("bar", 456);

    assert_eq!(list.get("foo"), Some(&123));
    assert_eq!(list.get("bar"), Some(&456));
}

#[test]
fn test_get_mut() {
    let mut list = BucketList::new();

    list.push("foo", 123);

    let value_mut = list.get_mut("foo").unwrap();
    *value_mut = 456;

    assert_eq!(list.get("foo"), Some(&456));
}

#[test]
fn bucket_list_push_reports_occupancy() {
    let mut list = BucketList::new();
    assert_eq!(list.push("a", 1), 1);
    assert_eq!(list.push("b", 2), 2);
    assert_eq!(list.push("c", 3), 3);
    assert_eq!(list.len(), 3);
    assert_eq!(list.get("d"), None);
}

#[test]
fn bucket_list_set_bucket_drains() {
    let mut list = BucketList::new();
    list.push("a", 1);
    list.push("b", 2);
    let drained = list.set_bucket(0).unwrap();
    assert_eq!(drained, vec![("a", 1), ("b", 2)]);
    assert_eq!(list.len(), 0);
    assert_eq!(list.get("a"), None);
    assert!(list.set_bucket(1).is_none());
}

#[test]
fn bucket_list_set_buckets_only_grows() {
    let mut list: BucketList<&str, i32> = BucketList::new();
    assert_eq!(list.buckets_len(), 1);
    list.set_buckets(5);
    assert_eq!(list.buckets_len(), 5);
    list.set_buckets(3);
    assert_eq!(list.buckets_len(), 5);
    assert!(list.set_bucket(4).unwrap().is_empty());
}

#[test]
fn hmap_insert_two_and_look_up() {
    let mut map = HMap::new();
    map.insert("foo", 123);
    map.insert("bar", 456);
    assert_eq!(map.get("foo"), Some(&123));
    assert_eq!(map.get("bar"), Some(&456));
    assert_eq!(map.get("baz"), None);
    assert_eq!(map.len(), 2);
}

#[test]
fn hmap_write_through_get_mut() {
    let mut map = HMap::new();
    map.insert("foo", 123);
    *map.get_mut("foo").unwrap() = 456;
    assert_eq!(map.get("foo"), Some(&456));
    assert!(map.get_mut("bar").is_none());
}

#[test]
fn hmap_keys_survive_migration() {
    let mut map = HMap::new();
    let keys = ["k1", "k2", "k3", "k4", "k5"];
    for (i, k) in keys.iter().enumerate() {
        map.insert(*k, i as i32);
    }
    for i in 0..20 {
        map.insert(format!("extra{}", i).leak() as &str, 100 + i);
    }
    for (i, k) in keys.iter().enumerate() {
        assert_eq!(map.get(*k), Some(&(i as i32)));
    }
    assert_eq!(map.len(), 25);
}

#[test]
fn hmap_five_keys_in_one_bucket() {
    let mut map = HMap::new();
    for k in ["a", "b", "c", "d", "e"] {
        map.insert(k, k.len());
    }
    assert_eq!(map.len(), 5);
    for k in ["a", "b", "c", "d", "e"] {
        assert_eq!(map.get(k), Some(&1));
    }
}

#[test]
fn hmap_overwrite_keeps_len() {
    let mut map = HMap::new();
    map.insert("foo", 1);
    map.insert("foo", 2);
    assert_eq!(map.len(), 1);
    assert_eq!(map.get("foo"), Some(&2));
}

#[test]
fn hmap_round_trip_many_keys() {
    let mut map = HMap::new();
    for i in 0..2000u64 {
        map.insert(i, i * 3);
        assert_eq!(map.len(), (i + 1) as usize);
    }
    for i in 0..2000u64 {
        assert_eq!(map.get(&i), Some(&(i * 3)));
    }
    for i in 0..2000u64 {
        map.insert(i, i + 1);
    }
    assert_eq!(map.len(), 2000);
    for i in 0..2000u64 {
        assert_eq!(map.get(&i), Some(&(i + 1)));
    }
}

#[test]
fn hmap_move_bucket_keeps_contents() {
    let mut map = HMap::new();
    for i in 0..50u32 {
        map.insert(i, i);
    }
    for _ in 0..100 {
        map.move_bucket();
        assert_eq!(map.len(), 50);
    }
    for i in 0..50u32 {
        assert_eq!(map.get(&i), Some(&i));
    }
}

#[test]
fn hmap_owned_text_keys_looked_up_by_str() {
    let mut map: HMap<String, u32> = HMap::new();
    for i in 0..40u32 {
        map.insert(format!("key{}", i), i);
    }
    assert_eq!(map.get("key7"), Some(&7));
    assert_eq!(map.get(&String::from("key39")), Some(&39));
    assert_eq!(map.get("key40"), None);
    *map.get_mut("key3").unwrap() = 300;
    assert_eq!(map.get("key3"), Some(&300));
    assert_eq!(hash(5, String::from("cat")), hash(5, "cat"));
    assert_eq!(map.len(), 40);
}
