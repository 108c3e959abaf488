use lit::config::{
    ApiConfig, ConfigError, LanguageConfig, LitConfig, ModelConfig, PricingConfig, ProjectConfig,
};
use lit::prompt::discover_prompts;
use lit::record::{estimate_cost, format_cost, format_tokens, ModelPricing, PromptRecord};
use lit::repostatus::{RepoStatus, StatusEntry};
use lit::style;

fn base_config() -> LitConfig {
    LitConfig {
        project: ProjectConfig {
            name: String::from("test-app"),
            version: String::from("0.1.0"),
            mapping: String::from("manifest"),
        },
        language: LanguageConfig {
            default: String::from("python"),
            version: String::from("3.12"),
        },
        framework: None,
        model: ModelConfig {
            provider: String::from("anthropic"),
            model: String::from("sonnet-4-5-20250929"),
            temperature_milli: 0,
            seed: Some(42),
            api: Some(ApiConfig { key_env: String::from("LIT_API_KEY") }),
            pricing: None,
        },
        static_files: Vec::new(),
    }
}

#[test]
fn test_validate_ok() {
    assert!(base_config().validate().is_ok());
}

#[test]
fn test_invalid_mapping_mode() {
    let mut c = base_config();
    c.project.mapping = String::from("invalid_mode");
    match c.validate().unwrap_err() {
        ConfigError::InvalidMappingMode(m) => assert_eq!(m, "invalid_mode"),
        _ => panic!("Expected mapping mode error"),
    }
}

#[test]
fn test_invalid_temperature() {
    let mut c = base_config();
    c.model.temperature_milli = 3000;
    match c.validate().unwrap_err() {
        ConfigError::InvalidTemperature(t) => assert_eq!(t, 3000),
        _ => panic!("Expected temperature error"),
    }
}

#[test]
fn test_invalid_provider() {
    let mut c = base_config();
    c.model.provider = String::from("google");
    match c.validate().unwrap_err() {
        ConfigError::InvalidProvider(p) => assert_eq!(p, "google"),
        _ => panic!("Expected provider error"),
    }
}

#[test]
fn test_all_mapping_modes() {
    for mode in ["direct", "manifest", "modular", "inferred"] {
        let mut c = base_config();
        c.project.mapping = String::from(mode);
        assert!(c.validate().is_ok(), "Mapping mode '{}' should be valid", mode);
    }
}

#[test]
fn test_pricing_override() {
    let mut c = base_config();
    c.model.pricing = Some(PricingConfig {
        input_per_million_micro: 5_000_000,
        output_per_million_micro: 25_000_000,
    });
    let pricing = c.model.pricing.unwrap();
    assert_eq!(pricing.input_per_million_micro, 5_000_000);
    assert_eq!(pricing.output_per_million_micro, 25_000_000);
}

#[test]
fn test_estimate_cost_sonnet() {
    // 1000 input and 2000 output tokens at 3 and 15 dollars per million:
    // 3000 + 30000 micro-dollars.
    let cost = estimate_cost("sonnet-4-5-20250929", 1000, 2000, None);
    assert_eq!(cost, 33_000);
}

#[test]
fn test_estimate_cost_haiku() {
    let cost = estimate_cost("3-5-haiku-20241022", 1000, 2000, None);
    assert_eq!(cost, 8_800);
}

#[test]
fn test_estimate_cost_unknown_model() {
    let cost = estimate_cost("some-future-model", 1000, 2000, None);
    let sonnet_cost = estimate_cost("sonnet-4-5-20250929", 1000, 2000, None);
    assert_eq!(cost, sonnet_cost);
}

#[test]
fn test_estimate_cost_with_override() {
    // Ten and fifty dollars per million tokens.
    let custom = ModelPricing::new(10_000_000, 50_000_000);
    let cost = estimate_cost("sonnet-4-5-20250929", 1000, 2000, Some(&custom));
    assert_eq!(cost, 110_000);
}

#[test]
fn test_estimate_cost_opus_tiers() {
    let cost_new = estimate_cost("opus-4-5-20260101", 1_000_000, 0, None);
    assert_eq!(cost_new, 5_000_000, "Newer opus input should be 5 dollars per million tokens");

    let cost_old = estimate_cost("opus-4-20250514", 1_000_000, 0, None);
    assert_eq!(cost_old, 15_000_000, "Older opus input should be 15 dollars per million tokens");
}

#[test]
fn test_cost_estimation() {
    let cost = estimate_cost("sonnet-4-5-20250929", 1000, 500, None);
    assert!(cost > 0, "Cost should be positive for a known model");

    let cost_unknown = estimate_cost("unknown-model-xyz", 1000, 500, None);
    assert!(cost_unknown > 0, "Should have fallback pricing");
}

#[test]
fn test_format_cost() {
    assert_eq!(format_cost(0), "$0.0000");
    assert_eq!(format_cost(500), "$0.0005");
    assert_eq!(format_cost(5_000), "$0.005");
    assert_eq!(format_cost(50_000), "$0.05");
    assert_eq!(format_cost(1_500_000), "$1.50");
}

#[test]
fn test_format_tokens() {
    assert_eq!(format_tokens(0), "0");
    assert_eq!(format_tokens(500), "500");
    assert_eq!(format_tokens(1234), "1,234");
    assert_eq!(format_tokens(12345), "12,345");
    assert_eq!(format_tokens(123456), "123,456");
    assert_eq!(format_tokens(1234567), "1.2M");
}

#[test]
fn test_prompt_record_cached_zero_cost() {
    let cached = PromptRecord {
        prompt_path: String::from("prompts/schemas/user.prompt.md"),
        output_files: vec![String::from("src/schemas/user.py")],
        input_hash: String::from("def456"),
        from_cache: true,
        tokens_in: 0,
        tokens_out: 0,
        duration_ms: 0,
        model: String::from("sonnet-4-5-20250929"),
        cost_micro_usd: 0,
    };
    assert!(cached.from_cache);
    assert_eq!(cached.tokens_in, 0);
    assert_eq!(cached.tokens_out, 0);
    assert_eq!(cached.cost_micro_usd, 0);
}

#[test]
fn test_repo_status_has_changes() {
    let status = RepoStatus {
        prompts_modified: vec![],
        prompts_new: vec![],
        prompts_deleted: vec![],
        code_modified: vec![],
        code_new: vec![],
        config_modified: vec![],
        other_modified: vec![],
        head_commit: None,
    };
    assert!(!status.has_changes());
    assert_eq!(status.total_changes(), 0);

    let status2 = RepoStatus {
        prompts_modified: vec![String::from("prompts/a.prompt.md")],
        prompts_new: vec![],
        prompts_deleted: vec![],
        code_modified: vec![],
        code_new: vec![],
        config_modified: vec![],
        other_modified: vec![],
        head_commit: Some(String::from("abc1234")),
    };
    assert!(status2.has_changes());
    assert_eq!(status2.total_changes(), 1);
}

#[test]
fn test_discover_demo_app_prompts() {
    // A project listing with twelve prompt files and a few other files.
    let listing: Vec<String> = vec![
        "prompts/config/structure.prompt.md",
        "prompts/config/database.prompt.md",
        "prompts/models/base.prompt.md",
        "prompts/models/user.prompt.md",
        "prompts/models/item.prompt.md",
        "prompts/schemas/user.prompt.md",
        "prompts/schemas/item.prompt.md",
        "prompts/api/users.prompt.md",
        "prompts/api/items.prompt.md",
        "prompts/main.prompt.md",
        "prompts/tests/test_users.prompt.md",
        "prompts/tests/test_items.prompt.md",
        "prompts/README.md",
        "prompts/notes.txt",
    ]
    .into_iter()
    .map(String::from)
    .collect();

    let prompt_paths = discover_prompts(listing);

    assert_eq!(
        prompt_paths.len(),
        12,
        "Expected 12 prompt files, found {}: {:?}",
        prompt_paths.len(),
        prompt_paths
    );
    for path in &prompt_paths {
        assert!(path.ends_with(".prompt.md"), "Not a prompt file: {:?}", path);
    }
}

#[test]
fn test_discover_prompts_filtering() {
    let listing: Vec<String> = vec!["prompts/b.prompt.md", "prompts/a.prompt.md", "readme.md", "notes.txt"]
        .into_iter()
        .map(String::from)
        .collect();
    let paths = discover_prompts(listing);
    assert_eq!(paths.len(), 2, "Should find only prompt files");
    assert_eq!(paths[0], "prompts/a.prompt.md");
    assert_eq!(paths[1], "prompts/b.prompt.md");
    for p in &paths {
        assert!(p.ends_with(".prompt.md"));
    }
}

#[test]
fn test_style_lines() {
    assert_eq!(style::header("Generation complete"), "=== Generation complete ===");
    assert_eq!(style::progress(1, 12), "(1/12)");
    assert_eq!(style::cached("prompts/foo.prompt.md"), "  ✓ prompts/foo.prompt.md (cached)");
    assert_eq!(
        style::regen_header(3, 12),
        "lit regenerate: 3 prompt(s) to generate (of 12 total)"
    );
    assert_eq!(
        style::gen_result(2, 1234, 567, 2300),
        "    ✓ 2 file(s), 1234 in / 567 out tokens, 2.3s"
    );
    assert_eq!(style::patch_conflict("src/a.py"), "    ⚠ Conflict in src/a.py (manual patch vs new generation)");
    assert_eq!(style::success("done"), "✓ done");
}

#[test]
fn test_aggregate_records() {
    let make = |tin: u64, tout: u64, cost: u64| lit::record::PromptRecord {
        prompt_path: String::from("prompts/a.prompt.md"),
        output_files: vec![String::from("src/a.py")],
        input_hash: String::from("h"),
        from_cache: false,
        tokens_in: tin,
        tokens_out: tout,
        duration_ms: 1,
        model: String::from("m"),
        cost_micro_usd: cost,
    };
    let rs = vec![make(500, 1200, 19_500), make(0, 0, 0), make(100, 200, 300)];
    let (tin, tout, cost) = lit::record::aggregate_records(&rs);
    assert_eq!(tin, 600);
    assert_eq!(tout, 1400);
    assert_eq!(cost, 19_800);
}

#[test]
fn test_categorize_entries() {
    let entries = vec![
        StatusEntry {
            path: String::from("prompts/a.prompt.md"),
            is_new: true,
            is_deleted: false,
            is_modified: false,
        },
        StatusEntry {
            path: String::from("code.lock/src/a.py"),
            is_new: false,
            is_deleted: false,
            is_modified: true,
        },
        StatusEntry {
            path: String::from("lit.toml"),
            is_new: false,
            is_deleted: false,
            is_modified: true,
        },
        StatusEntry {
            path: String::from("misc.txt"),
            is_new: true,
            is_deleted: false,
            is_modified: false,
        },
        StatusEntry {
            path: String::from("clean.txt"),
            is_new: false,
            is_deleted: false,
            is_modified: false,
        },
    ];
    let status = RepoStatus::categorize(&entries, Some(String::from("abc1234")));
    assert_eq!(status.prompts_new, vec![String::from("prompts/a.prompt.md")]);
    assert_eq!(status.code_modified, vec![String::from("code.lock/src/a.py")]);
    assert_eq!(status.config_modified, vec![String::from("lit.toml")]);
    assert_eq!(status.other_modified, vec![String::from("misc.txt")]);
    assert!(status.has_changes());
}
