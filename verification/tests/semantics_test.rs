use lemmalog::semantics::{bucket_index, count_buckets, EntityTable, HashEmbedder};
use lemmalog::fnv1a;

#[test]
fn fnv1a_known_values() {
    assert_eq!(fnv1a(b""), 0xcbf29ce484222325);
    assert_eq!(fnv1a(b"a"), 0xaf63dc4c8601ec8c);
    assert_eq!(fnv1a(b"foobar"), 0x85944171f73967e8);
    assert_eq!(fnv1a(b"hello"), 0xa430d84680aabd0b);
}

#[test]
fn hash_embedder_new_keeps_dim() {
    assert_eq!(HashEmbedder::new(256).dim, 256);
    assert_eq!(HashEmbedder::new(0).dim, 0);
}

#[test]
fn token_counts_buckets_lowercase_tokens() {
    let e = HashEmbedder::new(64);
    let c = e.token_counts("Hello, hello WORLD");
    assert_eq!(c.len(), 64);
    // "hello" falls in bucket 11 and "world" in bucket 51.
    assert_eq!(c[11], 2);
    assert_eq!(c[51], 1);
    assert_eq!(c.iter().sum::<u64>(), 3);
    for (i, x) in c.iter().enumerate() {
        if i != 11 && i != 51 {
            assert_eq!(*x, 0);
        }
    }
}

#[test]
fn token_counts_case_insensitive_beyond_ascii() {
    let e = HashEmbedder::new(97);
    assert_eq!(e.token_counts("ÄPFEL Straße"), e.token_counts("äpfel straße"));
    let c = e.token_counts("ÄPFEL");
    let b = (fnv1a("äpfel".as_bytes()) % 97) as usize;
    assert_eq!(c[b], 1);
}

#[test]
fn token_counts_split_at_non_alphanumeric() {
    let e = HashEmbedder::new(1);
    assert_eq!(e.token_counts("a-b_c  d9"), vec![4]);
    assert_eq!(e.token_counts("--- ,,, "), vec![0]);
    assert_eq!(e.token_counts(""), vec![0]);
}

#[test]
fn token_counts_empty_text_and_no_buckets() {
    let e = HashEmbedder::new(0);
    assert_eq!(e.token_counts(""), Vec::<u64>::new());
    assert_eq!(e.token_counts(" ... "), Vec::<u64>::new());
}

#[test]
fn token_counts_bag_of_tokens() {
    let e = HashEmbedder::new(32);
    let a = "acme industrial cloud";
    let b = "gigant cloud platform";
    let ab = e.token_counts(&format!("{a} {b}"));
    let ba = e.token_counts(&format!("{b} {a}"));
    let ca = e.token_counts(a);
    let cb = e.token_counts(b);
    assert_eq!(ab, ba);
    for i in 0..32 {
        assert_eq!(ab[i], ca[i] + cb[i]);
    }
    assert_eq!(ab.iter().sum::<u64>(), 6);
}

#[test]
fn entity_profiles_refresh() {
    let mut t: EntityTable<Vec<u64>> = EntityTable::new();
    t.register("x", vec![1, 2]);
    t.register("x", vec![3, 4]);
    assert_eq!(t.len(), 1);
    assert_eq!(t.entries()[0].0, "x");
    assert_eq!(t.entries()[0].1, vec![3, 4]);
}

#[test]
fn entity_table_keeps_first_registration_order() {
    let mut t: EntityTable<u32> = EntityTable::new();
    t.register("acme", 1);
    t.register("gigant", 2);
    t.register("zeta", 3);
    t.register("acme", 4);
    let names: Vec<&str> = t.entries().iter().map(|(n, _)| n.as_str()).collect();
    assert_eq!(names, vec!["acme", "gigant", "zeta"]);
    let values: Vec<u32> = t.entries().iter().map(|(_, v)| *v).collect();
    assert_eq!(values, vec![4, 2, 3]);
}

#[test]
fn buckets_of_lowercase_keys() {
    assert_eq!(bucket_index(64, "hello"), 11);
    assert_eq!(bucket_index(64, "world"), 51);
    assert_eq!(bucket_index(1, "anything"), 0);
    let c = count_buckets(64, &vec!["hello".to_string(), "world".to_string(), "hello".to_string()]);
    assert_eq!(c[11], 2);
    assert_eq!(c[51], 1);
    assert_eq!(c.iter().sum::<u64>(), 3);
}

#[test]
fn token_counts_checked_refuses_tokens_without_buckets() {
    assert_eq!(HashEmbedder::new(0).token_counts_checked("alpha"), None);
    assert_eq!(HashEmbedder::new(0).token_counts_checked(" - "), Some(vec![]));
    assert_eq!(HashEmbedder::new(1).token_counts_checked("alpha beta"), Some(vec![2]));
}

#[test]
fn token_counts_same_bag_same_counts() {
    let e = HashEmbedder::new(16);
    assert_eq!(e.token_counts("a, b"), e.token_counts("B a"));
    assert_eq!(e.token_counts("x y x"), e.token_counts("X--x..Y"));
}
