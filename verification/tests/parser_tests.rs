use lit::generator::{parse_response, strip_markdown_fences};

fn outs(items: &[&str]) -> Vec<String> {
    items.iter().map(|s| String::from(*s)).collect()
}

fn get<'a>(files: &'a [(String, String)], path: &str) -> &'a str {
    &files.iter().find(|(p, _)| p == path).expect("missing file").1
}

fn has(files: &[(String, String)], path: &str) -> bool {
    files.iter().any(|(p, _)| p == path)
}

#[test]
fn test_parse_single_file_response() {
    let content = "=== FILE: src/models/user.py ===\nclass User:\n    id: int\n    name: str\n\n    def __init__(self, id: int, name: str):\n        self.id = id\n        self.name = name\n";
    let files = parse_response(content, &outs(&["src/models/user.py"])).unwrap();

    assert_eq!(files.len(), 1);
    assert!(has(&files, "src/models/user.py"));
    let code = get(&files, "src/models/user.py");
    assert!(code.contains("class User:"));
    assert!(code.contains("def __init__"));
}

#[test]
fn test_parse_multi_file_response() {
    let content = "=== FILE: src/models/user.py ===\nclass User:\n    pass\n\n=== FILE: tests/test_user.py ===\ndef test_user():\n    user = User()\n    assert user is not None\n";
    let files = parse_response(
        content,
        &outs(&["src/models/user.py", "tests/test_user.py"]),
    ).unwrap();

    assert_eq!(files.len(), 2);
    assert!(get(&files, "src/models/user.py").contains("class User:"));
    assert!(get(&files, "tests/test_user.py").contains("def test_user"));
}

#[test]
fn test_parse_response_no_delimiters_single_output() {
    let content = "class User:\n    pass\n";
    let files = parse_response(content, &outs(&["src/models/user.py"])).unwrap();

    assert_eq!(files.len(), 1);
    assert!(get(&files, "src/models/user.py").contains("class User:"));
}

#[test]
fn test_parse_response_no_delimiters_multi_output_fails() {
    let content = "some code here";
    let r = parse_response(content, &outs(&["src/a.py", "src/b.py"]));
    assert!(r.is_err(), "Expected delimiter error");
}

#[test]
fn test_parse_response_with_preamble() {
    let content = "Here's the generated code:\n\n=== FILE: src/app.py ===\nfrom fastapi import FastAPI\n\napp = FastAPI()\n";
    let files = parse_response(content, &outs(&["src/app.py"])).unwrap();

    assert_eq!(files.len(), 1);
    assert!(get(&files, "src/app.py").contains("FastAPI"));
}

#[test]
fn test_parse_response_preserves_content() {
    let content = "=== FILE: src/config/database.py ===\nimport os\nfrom sqlalchemy import create_engine\nfrom sqlalchemy.orm import sessionmaker\n\nDATABASE_URL = os.environ.get(\"DATABASE_URL\", \"sqlite:///./test.db\")\n\nengine = create_engine(DATABASE_URL)\nSessionLocal = sessionmaker(autocommit=False, autoflush=False, bind=engine)\n\ndef get_db():\n    db = SessionLocal()\n    try:\n        yield db\n    finally:\n        db.close()\n";
    let files = parse_response(content, &outs(&["src/config/database.py"])).unwrap();

    let code = get(&files, "src/config/database.py");
    assert!(code.contains("import os"));
    assert!(code.contains("def get_db():"));
    assert!(code.contains("yield db"));
    assert!(code.ends_with('\n'));
}

#[test]
fn test_parse_response_trims_file_endings() {
    let content = "=== FILE: src/a.py ===\ncode\n\n\n";
    let files = parse_response(content, &outs(&["src/a.py"])).unwrap();
    assert_eq!(get(&files, "src/a.py"), "code\n");
}

#[test]
fn test_parse_response_extra_file() {
    let content = "=== FILE: src/a.py ===\ncode_a\n\n=== FILE: src/bonus.py ===\nbonus_code\n";
    let files = parse_response(content, &outs(&["src/a.py"])).unwrap();

    assert_eq!(files.len(), 2);
    assert!(has(&files, "src/a.py"));
    assert!(has(&files, "src/bonus.py"));
}

#[test]
fn test_parse_response_remaps_wrong_path_single() {
    let content = "=== FILE: app/database.py ===\nfrom sqlalchemy import create_engine\nengine = create_engine(\"sqlite:///./test.db\")\n";
    let files = parse_response(content, &outs(&["src/config/database.py"])).unwrap();

    assert_eq!(files.len(), 1);
    assert!(
        has(&files, "src/config/database.py"),
        "File should be remapped from app/database.py to src/config/database.py"
    );
    assert!(get(&files, "src/config/database.py").contains("create_engine"));
}

#[test]
fn test_parse_response_remaps_wrong_paths_multi() {
    let content = "=== FILE: app/models/user.py ===\nclass User:\n    pass\n\n=== FILE: app/tests/test_user.py ===\ndef test_user():\n    pass\n";
    let files = parse_response(
        content,
        &outs(&["src/models/user.py", "tests/test_user.py"]),
    ).unwrap();

    assert_eq!(files.len(), 2);
    assert!(has(&files, "src/models/user.py"));
    assert!(has(&files, "tests/test_user.py"));
    assert!(get(&files, "src/models/user.py").contains("class User:"));
    assert!(get(&files, "tests/test_user.py").contains("def test_user"));
}

#[test]
fn test_parse_response_no_remap_when_correct() {
    let content = "=== FILE: src/config/database.py ===\nfrom sqlalchemy import create_engine\n";
    let files = parse_response(content, &outs(&["src/config/database.py"])).unwrap();

    assert_eq!(files.len(), 1);
    assert!(has(&files, "src/config/database.py"));
}

#[test]
fn test_strip_fences_both() {
    let input = "```python\nimport os\nprint('hello')\n```";
    assert_eq!(strip_markdown_fences(input), "import os\nprint('hello')\n");
}

#[test]
fn test_strip_fences_bare_backticks() {
    let input = "```\nimport os\n```";
    assert_eq!(strip_markdown_fences(input), "import os\n");
}

#[test]
fn test_strip_fences_trailing_only() {
    let input = "import os\nprint('hello')\n```";
    assert_eq!(strip_markdown_fences(input), "import os\nprint('hello')\n");
}

#[test]
fn test_strip_fences_none() {
    let input = "import os\nprint('hello')\n";
    assert_eq!(strip_markdown_fences(input), "import os\nprint('hello')\n");
}

#[test]
fn test_strip_fences_in_delimited_response() {
    let content = "=== FILE: src/config/database.py ===\n```python\nimport os\nengine = create_engine()\n```\n";
    let files = parse_response(content, &outs(&["src/config/database.py"])).unwrap();

    let code = get(&files, "src/config/database.py");
    assert!(!code.contains("```"), "Markdown fences should be stripped");
    assert!(code.contains("import os"));
    assert!(code.contains("create_engine"));
}

#[test]
fn test_strip_fences_in_fallback_response() {
    let content = "```python\nimport os\ndef main():\n    pass\n```";
    let files = parse_response(content, &outs(&["src/main.py"])).unwrap();

    let code = get(&files, "src/main.py");
    assert!(!code.contains("```"), "Markdown fences should be stripped");
    assert!(code.contains("import os"));
    assert!(code.contains("def main"));
}

#[test]
fn test_response_parser_complex() {
    let content = "=== FILE: src/__init__.py ===\n\n=== FILE: src/models/user.py ===\nfrom sqlalchemy import Column, Integer, String\nfrom .base import Base\n\nclass User(Base):\n    __tablename__ = \"users\"\n    id = Column(Integer, primary_key=True)\n    name = Column(String)\n\n=== FILE: src/models/base.py ===\nfrom sqlalchemy.ext.declarative import declarative_base\n\nBase = declarative_base()\n";
    let files = parse_response(
        content,
        &outs(&["src/__init__.py", "src/models/user.py", "src/models/base.py"]),
    ).unwrap();
    assert_eq!(files.len(), 3);
    assert!(get(&files, "src/models/user.py").contains("class User(Base)"));
    assert!(get(&files, "src/models/base.py").contains("declarative_base"));
}

#[test]
fn test_response_parser_round_trip() {
    // Joining clean file sections with delimiters and parsing them back
    // recovers the contents, modulo the trailing-newline normalization.
    let sections = vec![
        (String::from("src/a.py"), String::from("line_a1\nline_a2\n")),
        (String::from("src/b.py"), String::from("line_b\n")),
    ];
    let mut joined = String::new();
    for (path, content) in &sections {
        joined.push_str("=== FILE: ");
        joined.push_str(path);
        joined.push_str(" ===\n");
        joined.push_str(content);
    }
    let expected = outs(&["src/a.py", "src/b.py"]);
    let files = parse_response(&joined, &expected).unwrap();
    assert_eq!(files.len(), 2);
    assert_eq!(get(&files, "src/a.py"), "line_a1\nline_a2\n");
    assert_eq!(get(&files, "src/b.py"), "line_b\n");
}
