use commit_log::util::random_hash;

#[test]
fn random_hash_is_thirty_letters_and_digits() {
    for _ in 0..100 {
        let hash = random_hash();
        assert_eq!(hash.len(), 30);
        assert_eq!(hash.chars().count(), 30);
        assert!(hash.chars().all(|c| c.is_ascii_alphanumeric()));
    }
}

#[test]
fn random_hash_differs_from_call_to_call() {
    let hashes: Vec<String> = (0..20).map(|_| random_hash()).collect();
    let first = &hashes[0];
    assert!(hashes.iter().any(|h| h != first));
}
