use lit::cache::{Cache, CachedGeneration};

fn pairs(items: &[(&str, &str)]) -> Vec<(String, String)> {
    items.iter().map(|(a, b)| (String::from(*a), String::from(*b))).collect()
}

#[test]
fn test_same_inputs_same_hash() {
    let fw = String::from("fastapi");
    let h1 = Cache::compute_input_hash(
        "prompt content",
        &pairs(&[("a.prompt.md", "hash_a")]),
        "sonnet-4-5-20250929",
        0,
        Some(42),
        "python",
        Some(&fw),
    );
    let h2 = Cache::compute_input_hash(
        "prompt content",
        &pairs(&[("a.prompt.md", "hash_a")]),
        "sonnet-4-5-20250929",
        0,
        Some(42),
        "python",
        Some(&fw),
    );
    assert_eq!(h1, h2);
}

#[test]
fn test_changed_prompt_different_hash() {
    let h1 = Cache::compute_input_hash(
        "prompt v1",
        &Vec::new(),
        "sonnet-4-5-20250929",
        0,
        None,
        "python",
        None,
    );
    let h2 = Cache::compute_input_hash(
        "prompt v2",
        &Vec::new(),
        "sonnet-4-5-20250929",
        0,
        None,
        "python",
        None,
    );
    assert_ne!(h1, h2);
}

#[test]
fn test_changed_import_different_hash() {
    let h1 = Cache::compute_input_hash(
        "prompt",
        &pairs(&[("dep.prompt.md", "hash_v1")]),
        "sonnet-4-5-20250929",
        0,
        None,
        "python",
        None,
    );
    let h2 = Cache::compute_input_hash(
        "prompt",
        &pairs(&[("dep.prompt.md", "hash_v2")]),
        "sonnet-4-5-20250929",
        0,
        None,
        "python",
        None,
    );
    assert_ne!(h1, h2);
}

#[test]
fn test_changed_model_different_hash() {
    let h1 = Cache::compute_input_hash(
        "prompt",
        &Vec::new(),
        "sonnet-4-5-20250929",
        0,
        None,
        "python",
        None,
    );
    let h2 = Cache::compute_input_hash("prompt", &Vec::new(), "gpt-4", 0, None, "python", None);
    assert_ne!(h1, h2);
}

#[test]
fn test_changed_temperature_different_hash() {
    let h1 = Cache::compute_input_hash("p", &Vec::new(), "m", 0, None, "py", None);
    let h2 = Cache::compute_input_hash("p", &Vec::new(), "m", 500, None, "py", None);
    assert_ne!(h1, h2);
}

#[test]
fn test_changed_seed_different_hash() {
    let h1 = Cache::compute_input_hash("p", &Vec::new(), "m", 0, Some(42), "py", None);
    let h2 = Cache::compute_input_hash("p", &Vec::new(), "m", 0, Some(99), "py", None);
    assert_ne!(h1, h2);
}

#[test]
fn test_changed_language_different_hash() {
    let h1 = Cache::compute_input_hash("p", &Vec::new(), "m", 0, None, "python", None);
    let h2 = Cache::compute_input_hash("p", &Vec::new(), "m", 0, None, "rust", None);
    assert_ne!(h1, h2);
}

#[test]
fn test_changed_framework_different_hash() {
    let fw = String::from("fastapi");
    let h1 = Cache::compute_input_hash("p", &Vec::new(), "m", 0, None, "py", Some(&fw));
    let h2 = Cache::compute_input_hash("p", &Vec::new(), "m", 0, None, "py", None);
    assert_ne!(h1, h2);
}

#[test]
fn test_import_order_does_not_matter() {
    let h1 = Cache::compute_input_hash(
        "prompt",
        &pairs(&[("b.prompt.md", "hash_b"), ("a.prompt.md", "hash_a")]),
        "model",
        0,
        None,
        "python",
        None,
    );
    let h2 = Cache::compute_input_hash(
        "prompt",
        &pairs(&[("a.prompt.md", "hash_a"), ("b.prompt.md", "hash_b")]),
        "model",
        0,
        None,
        "python",
        None,
    );
    assert_eq!(h1, h2, "Import order should not affect hash");
}

#[test]
fn test_cache_store_and_retrieve() {
    let mut cache = Cache::new(String::from(".lit/cache"));

    let entry = CachedGeneration {
        input_hash: String::from("abc123"),
        files: pairs(&[("src/main.py", "print('hello')\n")]),
        tokens_in: 100,
        tokens_out: 200,
    };

    cache.put(entry);

    let retrieved = cache.get("abc123").unwrap();
    assert_eq!(retrieved.input_hash, "abc123");
    assert_eq!(retrieved.files, pairs(&[("src/main.py", "print('hello')\n")]));
    assert_eq!(retrieved.tokens_in, 100);
    assert_eq!(retrieved.tokens_out, 200);
}

#[test]
fn test_cache_miss() {
    let cache = Cache::new(String::from(".lit/cache"));
    assert!(cache.get("nonexistent").is_none());
}

#[test]
fn test_cache_clear() {
    let mut cache = Cache::new(String::from(".lit/cache"));

    let entry = CachedGeneration {
        input_hash: String::from("abc123"),
        files: Vec::new(),
        tokens_in: 0,
        tokens_out: 0,
    };
    cache.put(entry);
    assert!(cache.get("abc123").is_some());

    cache.clear();
    assert!(cache.get("abc123").is_none());
}

#[test]
fn test_cache_overwrite_same_hash() {
    let mut cache = Cache::new(String::from(".lit/cache"));
    cache.put(CachedGeneration {
        input_hash: String::from("h"),
        files: pairs(&[("a.py", "v1\n")]),
        tokens_in: 1,
        tokens_out: 2,
    });
    cache.put(CachedGeneration {
        input_hash: String::from("h"),
        files: pairs(&[("a.py", "v2\n")]),
        tokens_in: 3,
        tokens_out: 4,
    });
    let e = cache.get("h").unwrap();
    assert_eq!(e.files, pairs(&[("a.py", "v2\n")]));
    assert_eq!(e.tokens_in, 3);
}

#[test]
fn test_cache_remove() {
    let mut cache = Cache::new(String::from(".lit/cache"));
    cache.put(CachedGeneration {
        input_hash: String::from("h1"),
        files: Vec::new(),
        tokens_in: 0,
        tokens_out: 0,
    });
    cache.put(CachedGeneration {
        input_hash: String::from("h2"),
        files: Vec::new(),
        tokens_in: 0,
        tokens_out: 0,
    });
    cache.remove("h1");
    assert!(cache.get("h1").is_none());
    assert!(cache.get("h2").is_some());
}

#[test]
fn test_cache_cascade() {
    // A linear chain: the fingerprint of the dependent uses the
    // fingerprint of its import, so editing the upstream body by one
    // character changes both fingerprints.
    let a_raw_1 = "---\noutputs:\n  - src/a.py\n---\n\n# A v1\n";
    let a_raw_2 = "---\noutputs:\n  - src/a.py\n---\n\n# A v2\n";
    let b_raw = "---\noutputs:\n  - src/b.py\nimports:\n  - prompts/a.prompt.md\n---\n\n# B\n";

    let ha1 = Cache::compute_input_hash(a_raw_1, &Vec::new(), "m", 0, None, "python", None);
    let ha1_again = Cache::compute_input_hash(a_raw_1, &Vec::new(), "m", 0, None, "python", None);
    assert_eq!(ha1, ha1_again, "Identical inputs must fingerprint identically");

    let ha2 = Cache::compute_input_hash(a_raw_2, &Vec::new(), "m", 0, None, "python", None);
    assert_ne!(ha1, ha2, "Changing the upstream body changes its fingerprint");

    let hb1 = Cache::compute_input_hash(
        b_raw,
        &pairs(&[("prompts/a.prompt.md", ha1.as_str())]),
        "m",
        0,
        None,
        "python",
        None,
    );
    let hb2 = Cache::compute_input_hash(
        b_raw,
        &pairs(&[("prompts/a.prompt.md", ha2.as_str())]),
        "m",
        0,
        None,
        "python",
        None,
    );
    assert_ne!(hb1, hb2, "The change must cascade to the dependent's fingerprint");
}
