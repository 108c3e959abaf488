use lit::patch::{PatchResult, PatchStore};

fn pairs(items: &[(&str, &str)]) -> Vec<(String, String)> {
    items.iter().map(|(a, b)| (String::from(*a), String::from(*b))).collect()
}

#[test]
fn test_detect_no_patches() {
    let generated = pairs(&[("src/main.py", "print('hello')\n")]);
    let actual = pairs(&[("src/main.py", "print('hello')\n")]);

    let patches = PatchStore::detect_patches(&generated, &actual);
    assert!(patches.is_empty());
}

#[test]
fn test_detect_single_patch() {
    let generated = pairs(&[("src/schemas/user.py", "class User:\n    updated_at: datetime\n")]);
    let actual = pairs(&[(
        "src/schemas/user.py",
        "class User:\n    updated_at: Optional[datetime] = None\n",
    )]);

    let patches = PatchStore::detect_patches(&generated, &actual);
    assert_eq!(patches.len(), 1);
    assert_eq!(patches[0].output_path, "src/schemas/user.py");
    assert_eq!(patches[0].lines_removed, 1);
    assert_eq!(patches[0].lines_added, 1);
    assert!(patches[0].diff.contains("--- a/src/schemas/user.py"));
    assert!(patches[0].diff.contains("+++ b/src/schemas/user.py"));
}

#[test]
fn test_detect_multiple_patches() {
    let generated = pairs(&[("a.py", "line1\n"), ("b.py", "line1\n")]);
    let actual = pairs(&[("a.py", "line1\nline2\n"), ("b.py", "line1\n")]);

    let patches = PatchStore::detect_patches(&generated, &actual);
    assert_eq!(patches.len(), 1);
    assert_eq!(patches[0].output_path, "a.py");
}

#[test]
fn test_save_load_round_trip() {
    let mut store = PatchStore::new(String::from(".lit/patches"));

    let original = "old content\n";
    let manual = "new content\n";
    store.save_patch("src/user.py", original, manual);

    let loaded = store.load_patch("src/user.py").unwrap();
    assert_eq!(loaded.original_content, original);
    assert_eq!(loaded.manual_content, manual);
    assert!(loaded.diff.contains("--- a/src/user.py"));
    assert!(loaded.diff.contains("+++ b/src/user.py"));
}

#[test]
fn test_load_missing_patch() {
    let store = PatchStore::new(String::from(".lit/patches"));
    assert!(store.load_patch("nonexistent.py").is_none());
}

#[test]
fn test_list_patches() {
    let mut store = PatchStore::new(String::from(".lit/patches"));

    store.save_patch("src/a.py", "old1", "new1");
    store.save_patch("src/b.py", "old2", "new2");
    store.save_patch("tests/test_a.py", "old3", "new3");

    let patches = store.list_patches();
    assert_eq!(patches.len(), 3);
    assert!(patches.contains(&String::from("src/a.py")));
    assert!(patches.contains(&String::from("src/b.py")));
    assert!(patches.contains(&String::from("tests/test_a.py")));
}

#[test]
fn test_drop_patch() {
    let mut store = PatchStore::new(String::from(".lit/patches"));

    store.save_patch("src/user.py", "old", "new");
    assert!(store.has_patch("src/user.py"));

    store.drop_patch("src/user.py");
    assert!(!store.has_patch("src/user.py"));
}

#[test]
fn test_apply_patch_no_llm_change() {
    let store = PatchStore::new(String::from(".lit/patches"));

    let original = "line1\nline2\nline3\n";
    let manual = "line1\nline2_edited\nline3\n";
    let new_gen = "line1\nline2\nline3\n";

    match store.apply_patch(original, new_gen, manual) {
        PatchResult::Applied(content) => {
            assert!(content.contains("line2_edited"), "User edit should be preserved");
            assert!(!content.contains("line2\n"), "Original line should be replaced");
        },
        PatchResult::Conflict(_) => panic!("Expected clean apply, got conflict"),
    }
}

#[test]
fn test_apply_patch_non_overlapping_changes() {
    let store = PatchStore::new(String::from(".lit/patches"));

    let original = "line1\nline2\nline3\nline4\nline5\n";
    let manual = "line1\nline2_user\nline3\nline4\nline5\n";
    let new_gen = "line1\nline2\nline3\nline4_llm\nline5\n";

    match store.apply_patch(original, new_gen, manual) {
        PatchResult::Applied(content) => {
            assert!(content.contains("line2_user"), "User edit should be applied");
            assert!(content.contains("line4_llm"), "Model edit should be preserved");
        },
        PatchResult::Conflict(_) => panic!("Expected clean apply, got conflict"),
    }
}

#[test]
fn test_apply_patch_conflict() {
    let store = PatchStore::new(String::from(".lit/patches"));

    let original = "line1\nline2\nline3\n";
    let manual = "line1\nline2_user\nline3\n";
    let new_gen = "line1\nline2_llm\nline3\n";

    match store.apply_patch(original, new_gen, manual) {
        PatchResult::Conflict(content) => {
            assert!(content.contains("<<<<<<<"), "Should have conflict markers");
            assert!(content.contains("======="), "Should have conflict markers");
            assert!(content.contains(">>>>>>>"), "Should have conflict markers");
        },
        PatchResult::Applied(_) => panic!("Expected conflict, got clean apply"),
    }
}

#[test]
fn test_has_patch() {
    let mut store = PatchStore::new(String::from(".lit/patches"));

    assert!(!store.has_patch("src/user.py"));
    store.save_patch("src/user.py", "old", "new");
    assert!(store.has_patch("src/user.py"));
}

#[test]
fn test_patch_file_path() {
    let store = PatchStore::new(String::from(".lit/patches"));
    let path = store.patch_file_path("src/schemas/user.py");
    assert_eq!(path, ".lit/patches/src/schemas/user.py.patch");
}

#[test]
fn test_apply_patch_merge_exact() {
    // The aligned three-way walk keeps the changed side at every
    // position.
    let store = PatchStore::new(String::from(".lit/patches"));
    let original = "a\nb\nc\nd\n";
    let manual = "a\nB\nc\nd\n";
    let new_gen = "a\nb\nc\nD\n";
    match store.apply_patch(original, new_gen, manual) {
        PatchResult::Applied(content) => {
            assert_eq!(content, "a\nB\nc\nD\n");
        },
        PatchResult::Conflict(_) => panic!("Expected clean apply"),
    }
}
