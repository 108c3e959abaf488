use lit::config::{LanguageConfig, LitConfig, ModelConfig, ProjectConfig};
use lit::prompt::{extract_body_imports, is_prompt_file, split_frontmatter, Prompt, PromptError};

fn config_with_mapping(mapping: &str) -> LitConfig {
    LitConfig {
        project: ProjectConfig {
            name: String::from("test"),
            version: String::from("0.1.0"),
            mapping: String::from(mapping),
        },
        language: LanguageConfig {
            default: String::from("python"),
            version: String::from("3.12"),
        },
        framework: None,
        model: ModelConfig {
            provider: String::from("anthropic"),
            model: String::from("sonnet-4-5-20250929"),
            temperature_milli: 0,
            seed: None,
            api: None,
            pricing: None,
        },
        static_files: Vec::new(),
    }
}

fn test_config() -> LitConfig {
    config_with_mapping("manifest")
}

#[test]
fn test_parse_simple_prompt() {
    let raw = "---\noutputs:\n  - src/models/user.py\nimports:\n  - prompts/models/base.prompt.md\n---\n\n# User Model\n\nCreate a User model.\n";
    let config = test_config();
    let prompt = Prompt::parse(raw, String::from("prompts/models/user.prompt.md"), &config)
        .unwrap();

    assert_eq!(prompt.path, "prompts/models/user.prompt.md");
    assert_eq!(prompt.frontmatter.outputs, vec![String::from("src/models/user.py")]);
    assert_eq!(
        prompt.frontmatter.imports,
        vec![String::from("prompts/models/base.prompt.md")]
    );
    assert!(prompt.body.contains("# User Model"));
    assert!(prompt.body.contains("Create a User model."));
}

#[test]
fn test_parse_prompt_with_multiple_outputs() {
    let raw = "---\noutputs:\n  - src/models/user.py\n  - tests/test_user.py\nimports: []\n---\n\n# User Model + Tests\n";
    let config = test_config();
    let prompt = Prompt::parse(raw, String::from("prompts/user.prompt.md"), &config).unwrap();

    assert_eq!(prompt.frontmatter.outputs.len(), 2);
    assert_eq!(prompt.frontmatter.outputs[0], "src/models/user.py");
    assert_eq!(prompt.frontmatter.outputs[1], "tests/test_user.py");
    assert!(prompt.frontmatter.imports.is_empty());
}

#[test]
fn test_parse_prompt_with_multiple_imports() {
    let raw = "---\noutputs:\n  - src/api/items.py\nimports:\n  - prompts/models/item.prompt.md\n  - prompts/models/user.prompt.md\n  - prompts/schemas/item.prompt.md\n  - prompts/config/database.prompt.md\n---\n\n# Item endpoints\n";
    let config = test_config();
    let prompt = Prompt::parse(raw, String::from("prompts/api/items.prompt.md"), &config)
        .unwrap();

    assert_eq!(prompt.frontmatter.imports.len(), 4);
}

#[test]
fn test_parse_prompt_no_imports() {
    let raw = "---\noutputs:\n  - src/config/database.py\nimports: []\n---\n\n# Database config\n";
    let config = test_config();
    let prompt = Prompt::parse(raw, String::from("prompts/config/database.prompt.md"), &config)
        .unwrap();

    assert!(prompt.frontmatter.imports.is_empty());
    assert_eq!(prompt.frontmatter.outputs.len(), 1);
}

#[test]
fn test_parse_prompt_no_outputs_in_manifest_mode_fails() {
    let raw = "---\noutputs: []\nimports: []\n---\n\n# Empty prompt\n";
    let config = test_config();
    let err = Prompt::parse(raw, String::from("prompts/empty.prompt.md"), &config).unwrap_err();
    assert!(
        err.message().contains("no outputs"),
        "Expected no outputs error, got: {}",
        err.message()
    );
    assert!(matches!(err, PromptError::NoOutputsInManifestMode));
}

#[test]
fn test_parse_prompt_no_outputs_in_direct_mode_ok() {
    let raw = "---\nimports: []\n---\n\n# A prompt in direct mode\n";
    let config = config_with_mapping("direct");
    let prompt = Prompt::parse(raw, String::from("prompts/foo.prompt.md"), &config);
    assert!(prompt.is_ok());
}

#[test]
fn test_parse_prompt_with_model_override() {
    let raw = "---\noutputs:\n  - src/complex.py\nimports: []\nmodel:\n  provider: anthropic\n  model: opus-4-6\n  temperature: 0.0\n---\n\n# Complex logic\n";
    let config = test_config();
    let prompt = Prompt::parse(raw, String::from("prompts/complex.prompt.md"), &config).unwrap();

    let model = prompt.frontmatter.model.unwrap();
    assert_eq!(model.model, "opus-4-6");
    assert_eq!(model.provider, "anthropic");
    assert_eq!(model.temperature_milli, 0);
}

#[test]
fn test_parse_prompt_with_model_temperature_and_seed() {
    let raw = "---\noutputs:\n  - src/x.py\nimports: []\nmodel:\n  provider: anthropic\n  model: sonnet-4-5-20250929\n  temperature: 0.75\n  seed: 42\n---\n\n# X\n";
    let config = test_config();
    let prompt = Prompt::parse(raw, String::from("prompts/x.prompt.md"), &config).unwrap();
    let model = prompt.frontmatter.model.unwrap();
    assert_eq!(model.temperature_milli, 750);
    assert_eq!(model.seed, Some(42));
}

#[test]
fn test_parse_prompt_with_language_override() {
    let raw = "---\noutputs:\n  - src/frontend/app.ts\nimports: []\nlanguage: typescript\n---\n\n# Frontend\n";
    let config = test_config();
    let prompt = Prompt::parse(raw, String::from("prompts/frontend.prompt.md"), &config)
        .unwrap();

    assert_eq!(prompt.frontmatter.language.as_deref(), Some("typescript"));
}

#[test]
fn test_missing_frontmatter() {
    let raw = "# No frontmatter here\n\nJust a regular markdown file.\n";
    let config = test_config();
    let err = Prompt::parse(raw, String::from("prompts/bad.prompt.md"), &config).unwrap_err();
    assert!(
        err.message().contains("frontmatter"),
        "Expected frontmatter error, got: {}",
        err.message()
    );
    assert!(matches!(err, PromptError::HeaderMissing));
}

#[test]
fn test_unterminated_frontmatter() {
    let raw = "---\noutputs:\n  - foo.py\n\n# Body without closing ---\n";
    let config = test_config();
    let err = Prompt::parse(raw, String::from("prompts/bad.prompt.md"), &config).unwrap_err();
    assert!(
        err.message().contains("frontmatter"),
        "Expected frontmatter error, got: {}",
        err.message()
    );
    assert!(matches!(err, PromptError::HeaderUnterminated));
}

#[test]
fn test_invalid_import_extension() {
    let raw = "---\noutputs:\n  - src/a.py\nimports:\n  - prompts/helper.txt\n---\n\n# A\n";
    let config = test_config();
    let err = Prompt::parse(raw, String::from("prompts/a.prompt.md"), &config).unwrap_err();
    match err {
        PromptError::InvalidImportExtension(p) => assert_eq!(p, "prompts/helper.txt"),
        other => panic!("Expected invalid import extension, got: {}", other.message()),
    }
}

#[test]
fn test_malformed_header_payload() {
    let raw = "---\noutputs\n---\n\n# A\n";
    let config = config_with_mapping("direct");
    let err = Prompt::parse(raw, String::from("prompts/a.prompt.md"), &config).unwrap_err();
    assert!(matches!(err, PromptError::HeaderMalformed));
}

#[test]
fn test_extract_body_imports() {
    let body = "\nUse the Base class from @import(prompts/models/base.prompt.md).\nAlso use @import(prompts/config/database.prompt.md) for DB access.\n";
    let imports = extract_body_imports(body);
    assert_eq!(imports.len(), 2);
    assert_eq!(imports[0], "prompts/models/base.prompt.md");
    assert_eq!(imports[1], "prompts/config/database.prompt.md");
}

#[test]
fn test_extract_body_imports_none() {
    let body = "# Just a heading\n\nNo imports here.\n";
    let imports = extract_body_imports(body);
    assert!(imports.is_empty());
}

#[test]
fn test_is_prompt_file() {
    assert!(is_prompt_file("prompts/models/user.prompt.md"));
    assert!(is_prompt_file("foo.prompt.md"));
    assert!(!is_prompt_file("README.md"));
    assert!(!is_prompt_file("foo.rs"));
    assert!(!is_prompt_file("prompt.md"));
}

#[test]
fn test_split_frontmatter() {
    let content = "---\nkey: value\n---\n\n# Body\n";
    let (fm, body) = split_frontmatter(content).unwrap();
    assert_eq!(fm.trim(), "key: value");
    assert!(body.contains("# Body"));
}

#[test]
fn test_body_imports_method() {
    let raw = "---\noutputs:\n  - src/b.py\nimports:\n  - prompts/a.prompt.md\n---\n\nDepends on @import(prompts/a.prompt.md).\n";
    let config = test_config();
    let prompt = Prompt::parse(raw, String::from("prompts/b.prompt.md"), &config).unwrap();
    let refs = prompt.body_imports();
    assert_eq!(refs, vec![String::from("prompts/a.prompt.md")]);
}
