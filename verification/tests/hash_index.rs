use nix_cache_mirror::database::model::{StorePath, StorePathHash};
use nix_cache_mirror::hash_index::HashIndex;
use std::convert::TryFrom;

fn hash(text: &str) -> StorePathHash {
    StorePath::try_from(format!("/nix/store/{}-x", text))
        .unwrap()
        .hash()
}

#[test]
fn positions_follow_insertion() {
    let a = hash("yhzvzdq82lzk0kvrp3i79yhjnhps6qpk");
    let b = hash("xlxiw4rnxx2dksa91fizjzf7jb5nqghc");
    // Shares its first eight characters with `a`.
    let c = hash("yhzvzdq8000000000000000000000000");
    let mut index = HashIndex::new();
    assert_eq!(index.len(), 0);
    assert_eq!(index.position(&a), None);
    assert!(!index.contains(&a));
    index.push(a);
    index.push(b);
    assert_eq!(index.position(&c), None);
    index.push(c);
    assert_eq!(index.len(), 3);
    assert_eq!(index.position(&a), Some(0));
    assert_eq!(index.position(&b), Some(1));
    assert_eq!(index.position(&c), Some(2));
    assert!(index.contains(&c));
    assert_eq!(index.get(1), b);
    assert_eq!(
        index.position_of_bytes(b"xlxiw4rnxx2dksa91fizjzf7jb5nqghc"),
        Some(1)
    );
    assert_eq!(
        index.position_of_bytes(b"xlxiw4rnxx2dksa91fizjzf7jb5nqgh"),
        None
    );
    assert_eq!(index.position_of_bytes(b""), None);
    assert_eq!(index.position_of_bytes(&[0xff; 32]), None);
}

#[test]
fn many_hashes() {
    let letters = "abcdfghijklmnpqrsvwxyz0123456789";
    let mut index = HashIndex::new();
    let mut all = vec![];
    for i in 0..500usize {
        let a = letters.as_bytes()[i % 32] as char;
        let b = letters.as_bytes()[i / 32] as char;
        // The hashes differ in their last characters only.
        all.push(hash(&format!("{}{}{}", "0".repeat(30), a, b)));
    }
    for h in &all {
        index.push(*h);
    }
    for (i, h) in all.iter().enumerate() {
        assert_eq!(index.position(h), Some(i));
    }
}
