use std::hash::{Hash, Hasher};
use toporepo::cache::{body_hash, cache_file_name};
use toporepo::render::approx_tokens;

#[test]
fn approx_tokens_counts_chars() {
    assert_eq!(approx_tokens(""), 0);
    assert_eq!(approx_tokens("abcd"), 1);
    assert_eq!(approx_tokens(&"x".repeat(38)), 10);
    assert_eq!(approx_tokens(&"x".repeat(37)), 9);
}

#[test]
fn approx_tokens_counts_chars_not_bytes() {
    // four two-byte characters are four characters
    assert_eq!(approx_tokens("éééé"), 1);
    assert_eq!(approx_tokens(&"é".repeat(19)), 5);
}

#[test]
fn approx_tokens_never_decreases_with_length() {
    let mut prev = 0;
    for n in 0..200 {
        let t = approx_tokens(&"a".repeat(n));
        assert!(t >= prev);
        assert_eq!(t, (n as f64 / 3.8) as usize);
        prev = t;
    }
}

#[test]
fn body_hash_is_deterministic() {
    assert_eq!(body_hash("fn a() {}"), body_hash("fn a() {}"));
    assert_ne!(body_hash("fn a() {}"), body_hash("fn b() {}"));
}

#[test]
fn body_hash_is_the_default_hasher_value() {
    let mut h = std::collections::hash_map::DefaultHasher::new();
    "some text".hash(&mut h);
    assert_eq!(body_hash("some text"), h.finish() as i64);
}

#[test]
fn cache_file_name_uses_dir_name_and_hash() {
    let canon = "/home/me/my repo.x";
    let mut h = std::collections::hash_map::DefaultHasher::new();
    canon.hash(&mut h);
    let expected = format!("my_repo_x-{:016x}.db", h.finish());
    assert_eq!(cache_file_name(canon), expected);
}

#[test]
fn cache_file_name_of_root_is_repo() {
    let name = cache_file_name("/");
    assert!(name.starts_with("repo-"));
    assert!(name.ends_with(".db"));
    assert_eq!(name.len(), "repo-".len() + 16 + ".db".len());
}

#[test]
fn cache_file_name_keeps_dashes_and_underscores() {
    let name = cache_file_name("/work/a-b_c");
    assert!(name.starts_with("a-b_c-"));
}

#[test]
fn cache_file_name_for_given_hash() {
    assert_eq!(toporepo::cache::cache_file_name_for("/w/proj", 0xab), "proj-00000000000000ab.db");
    assert_eq!(toporepo::cache::cache_file_name_for("/", u64::MAX), "repo-ffffffffffffffff.db");
    assert_eq!(toporepo::cache::cache_file_name_for("/w/a b+c", 1), "a_b_c-0000000000000001.db");
}
