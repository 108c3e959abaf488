use lit::config::{LanguageConfig, LitConfig, ModelConfig, ProjectConfig};
use lit::dag::{Dag, DagError};
use lit::prompt::Prompt;

fn test_config() -> LitConfig {
    LitConfig {
        project: ProjectConfig {
            name: String::from("test"),
            version: String::from("0.1.0"),
            mapping: String::from("manifest"),
        },
        language: LanguageConfig {
            default: String::from("python"),
            version: String::from("3.12"),
        },
        framework: None,
        model: ModelConfig {
            provider: String::from("anthropic"),
            model: String::from("sonnet-4-5-20250929"),
            temperature_milli: 0,
            seed: None,
            api: None,
            pricing: None,
        },
        static_files: Vec::new(),
    }
}

fn make_prompt(path: &str, outputs: &[&str], imports: &[&str]) -> Prompt {
    let outputs_block = if outputs.is_empty() {
        String::from("outputs: []")
    } else {
        let items: Vec<String> = outputs.iter().map(|o| format!("  - {}", o)).collect();
        format!("outputs:\n{}", items.join("\n"))
    };
    let imports_block = if imports.is_empty() {
        String::from("imports: []")
    } else {
        let items: Vec<String> = imports.iter().map(|i| format!("  - {}", i)).collect();
        format!("imports:\n{}", items.join("\n"))
    };
    let raw = format!("---\n{}\n{}\n---\n\n# Test prompt\n", outputs_block, imports_block);
    let config = test_config();
    Prompt::parse(&raw, String::from(path), &config).unwrap()
}

#[test]
fn test_linear_chain() {
    let a = make_prompt("prompts/a.prompt.md", &["src/a.py"], &[]);
    let b = make_prompt("prompts/b.prompt.md", &["src/b.py"], &["prompts/a.prompt.md"]);
    let c = make_prompt("prompts/c.prompt.md", &["src/c.py"], &["prompts/b.prompt.md"]);

    let dag = Dag::build(&vec![a, b, c]).unwrap();

    assert_eq!(dag.len(), 3);
    let order: Vec<&str> = dag.order().iter().map(|p| p.as_str()).collect();
    assert_eq!(
        order,
        vec!["prompts/a.prompt.md", "prompts/b.prompt.md", "prompts/c.prompt.md"]
    );

    let roots = dag.roots();
    assert_eq!(roots.len(), 1);
    assert_eq!(roots[0].prompt_path, "prompts/a.prompt.md");

    let leaves = dag.leaves();
    assert_eq!(leaves.len(), 1);
    assert_eq!(leaves[0].prompt_path, "prompts/c.prompt.md");
}

#[test]
fn test_diamond_dependency() {
    let a = make_prompt("prompts/a.prompt.md", &["src/a.py"], &[]);
    let b = make_prompt("prompts/b.prompt.md", &["src/b.py"], &["prompts/a.prompt.md"]);
    let c = make_prompt("prompts/c.prompt.md", &["src/c.py"], &["prompts/a.prompt.md"]);
    let d = make_prompt(
        "prompts/d.prompt.md",
        &["src/d.py"],
        &["prompts/b.prompt.md", "prompts/c.prompt.md"],
    );

    let dag = Dag::build(&vec![a, b, c, d]).unwrap();

    assert_eq!(dag.len(), 4);
    let order = dag.order();
    assert_eq!(order[0], "prompts/a.prompt.md");
    assert_eq!(order[3], "prompts/d.prompt.md");
    let b_pos = order.iter().position(|p| p == "prompts/b.prompt.md").unwrap();
    let c_pos = order.iter().position(|p| p == "prompts/c.prompt.md").unwrap();
    assert!(b_pos > 0 && b_pos < 3);
    assert!(c_pos > 0 && c_pos < 3);
}

#[test]
fn test_cycle_detection() {
    let a = make_prompt("prompts/a.prompt.md", &["src/a.py"], &["prompts/b.prompt.md"]);
    let b = make_prompt("prompts/b.prompt.md", &["src/b.py"], &["prompts/a.prompt.md"]);

    let err = Dag::build(&vec![a, b]).unwrap_err();
    let msg = err.message();
    assert!(msg.contains("Circular dependency"), "Expected cycle error, got: {}", msg);
    assert!(msg.contains("prompts/a.prompt.md"));
    assert!(msg.contains("prompts/b.prompt.md"));
}

#[test]
fn test_three_node_cycle() {
    let a = make_prompt("prompts/a.prompt.md", &["src/a.py"], &["prompts/c.prompt.md"]);
    let b = make_prompt("prompts/b.prompt.md", &["src/b.py"], &["prompts/a.prompt.md"]);
    let c = make_prompt("prompts/c.prompt.md", &["src/c.py"], &["prompts/b.prompt.md"]);

    let err = Dag::build(&vec![a, b, c]).unwrap_err();
    assert!(
        err.message().contains("Circular dependency"),
        "Expected cycle error, got: {}",
        err.message()
    );
}

#[test]
fn test_independent_prompts() {
    let a = make_prompt("prompts/a.prompt.md", &["src/a.py"], &[]);
    let b = make_prompt("prompts/b.prompt.md", &["src/b.py"], &[]);

    let dag = Dag::build(&vec![a, b]).unwrap();

    assert_eq!(dag.len(), 2);
    assert_eq!(dag.roots().len(), 2);
    assert_eq!(dag.leaves().len(), 2);
    assert_eq!(dag.order().len(), 2);
}

#[test]
fn test_regeneration_set_linear() {
    let a = make_prompt("prompts/a.prompt.md", &["src/a.py"], &[]);
    let b = make_prompt("prompts/b.prompt.md", &["src/b.py"], &["prompts/a.prompt.md"]);
    let c = make_prompt("prompts/c.prompt.md", &["src/c.py"], &["prompts/b.prompt.md"]);

    let dag = Dag::build(&vec![a, b, c]).unwrap();

    let regen = dag.regeneration_set(&vec![String::from("prompts/a.prompt.md")]);
    assert_eq!(regen.len(), 3);
    assert_eq!(regen[0], "prompts/a.prompt.md");
    assert_eq!(regen[1], "prompts/b.prompt.md");
    assert_eq!(regen[2], "prompts/c.prompt.md");
}

#[test]
fn test_regeneration_set_middle_change() {
    let a = make_prompt("prompts/a.prompt.md", &["src/a.py"], &[]);
    let b = make_prompt("prompts/b.prompt.md", &["src/b.py"], &["prompts/a.prompt.md"]);
    let c = make_prompt("prompts/c.prompt.md", &["src/c.py"], &["prompts/b.prompt.md"]);

    let dag = Dag::build(&vec![a, b, c]).unwrap();

    let regen = dag.regeneration_set(&vec![String::from("prompts/b.prompt.md")]);
    assert_eq!(regen.len(), 2);
    assert_eq!(regen[0], "prompts/b.prompt.md");
    assert_eq!(regen[1], "prompts/c.prompt.md");
}

#[test]
fn test_regeneration_set_leaf_change() {
    let a = make_prompt("prompts/a.prompt.md", &["src/a.py"], &[]);
    let b = make_prompt("prompts/b.prompt.md", &["src/b.py"], &["prompts/a.prompt.md"]);
    let c = make_prompt("prompts/c.prompt.md", &["src/c.py"], &["prompts/b.prompt.md"]);

    let dag = Dag::build(&vec![a, b, c]).unwrap();

    let regen = dag.regeneration_set(&vec![String::from("prompts/c.prompt.md")]);
    assert_eq!(regen.len(), 1);
    assert_eq!(regen[0], "prompts/c.prompt.md");
}

#[test]
fn test_regeneration_set_independent() {
    let a = make_prompt("prompts/a.prompt.md", &["src/a.py"], &[]);
    let b = make_prompt("prompts/b.prompt.md", &["src/b.py"], &["prompts/a.prompt.md"]);
    let c = make_prompt("prompts/c.prompt.md", &["src/c.py"], &[]);

    let dag = Dag::build(&vec![a, b, c]).unwrap();

    let regen = dag.regeneration_set(&vec![String::from("prompts/b.prompt.md")]);
    assert_eq!(regen.len(), 1);
    assert_eq!(regen[0], "prompts/b.prompt.md");
}

#[test]
fn test_regeneration_set_diamond() {
    let a = make_prompt("prompts/a.prompt.md", &["src/a.py"], &[]);
    let b = make_prompt("prompts/b.prompt.md", &["src/b.py"], &["prompts/a.prompt.md"]);
    let c = make_prompt("prompts/c.prompt.md", &["src/c.py"], &["prompts/a.prompt.md"]);
    let d = make_prompt(
        "prompts/d.prompt.md",
        &["src/d.py"],
        &["prompts/b.prompt.md", "prompts/c.prompt.md"],
    );

    let dag = Dag::build(&vec![a, b, c, d]).unwrap();

    let regen = dag.regeneration_set(&vec![String::from("prompts/a.prompt.md")]);
    assert_eq!(regen.len(), 4);
}

#[test]
fn test_regeneration_set_diamond_partial() {
    let a = make_prompt("prompts/a.prompt.md", &["src/a.py"], &[]);
    let b = make_prompt("prompts/b.prompt.md", &["src/b.py"], &["prompts/a.prompt.md"]);
    let c = make_prompt("prompts/c.prompt.md", &["src/c.py"], &["prompts/a.prompt.md"]);
    let d = make_prompt(
        "prompts/d.prompt.md",
        &["src/d.py"],
        &["prompts/b.prompt.md", "prompts/c.prompt.md"],
    );

    let dag = Dag::build(&vec![a, b, c, d]).unwrap();

    let regen = dag.regeneration_set(&vec![String::from("prompts/c.prompt.md")]);
    assert_eq!(regen.len(), 2);
    assert!(regen.contains(&String::from("prompts/c.prompt.md")));
    assert!(regen.contains(&String::from("prompts/d.prompt.md")));
}

#[test]
fn test_output_conflict_detection() {
    let a = make_prompt("prompts/a.prompt.md", &["src/shared.py"], &[]);
    let b = make_prompt("prompts/b.prompt.md", &["src/shared.py"], &[]);

    let err = Dag::build(&vec![a, b]).unwrap_err();
    let msg = err.message();
    assert!(msg.contains("Output file conflicts"), "Expected output conflict error, got: {}", msg);
    assert!(msg.contains("src/shared.py"), "Expected shared.py in error, got: {}", msg);
    match err {
        DagError::OutputConflicts(cs) => {
            assert_eq!(cs.len(), 1);
            assert_eq!(cs[0].0, "src/shared.py");
            assert_eq!(cs[0].1.len(), 2);
            assert!(cs[0].1.contains(&String::from("prompts/a.prompt.md")));
            assert!(cs[0].1.contains(&String::from("prompts/b.prompt.md")));
        },
        _ => panic!("Expected OutputConflicts"),
    }
}

#[test]
fn test_missing_import_detection() {
    let a = make_prompt("prompts/a.prompt.md", &["src/a.py"], &["prompts/nonexistent.prompt.md"]);

    let err = Dag::build(&vec![a]).unwrap_err();
    let msg = err.message();
    assert!(msg.contains("Missing imports"), "Expected missing import error, got: {}", msg);
    assert!(msg.contains("nonexistent"), "Expected nonexistent in error, got: {}", msg);
}

#[test]
fn test_empty_dag() {
    let dag = Dag::build(&Vec::new()).unwrap();
    assert!(dag.is_empty());
    assert_eq!(dag.len(), 0);
    assert!(dag.order().is_empty());
    assert!(dag.roots().is_empty());
    assert!(dag.leaves().is_empty());
}

#[test]
fn test_single_node() {
    let a = make_prompt("prompts/a.prompt.md", &["src/a.py"], &[]);
    let dag = Dag::build(&vec![a]).unwrap();

    assert_eq!(dag.len(), 1);
    assert_eq!(dag.order().len(), 1);
    assert_eq!(dag.roots().len(), 1);
    assert_eq!(dag.leaves().len(), 1);
}

#[test]
fn test_regeneration_set_unknown_path() {
    let a = make_prompt("prompts/a.prompt.md", &["src/a.py"], &[]);
    let dag = Dag::build(&vec![a]).unwrap();

    let regen = dag.regeneration_set(&vec![String::from("prompts/nonexistent.prompt.md")]);
    assert!(regen.is_empty());
}

#[test]
fn test_multiple_changes() {
    let a = make_prompt("prompts/a.prompt.md", &["src/a.py"], &[]);
    let b = make_prompt("prompts/b.prompt.md", &["src/b.py"], &[]);
    let c = make_prompt("prompts/c.prompt.md", &["src/c.py"], &["prompts/a.prompt.md"]);
    let d = make_prompt("prompts/d.prompt.md", &["src/d.py"], &["prompts/b.prompt.md"]);

    let dag = Dag::build(&vec![a, b, c, d]).unwrap();

    let regen = dag.regeneration_set(&vec![
        String::from("prompts/a.prompt.md"),
        String::from("prompts/b.prompt.md"),
    ]);
    assert_eq!(regen.len(), 4);
}

#[test]
fn test_dag_get_lookup() {
    let a = make_prompt("prompts/a.prompt.md", &["src/a.py"], &[]);
    let b = make_prompt("prompts/b.prompt.md", &["src/b.py"], &["prompts/a.prompt.md"]);
    let dag = Dag::build(&vec![a, b]).unwrap();

    let node = dag.get("prompts/b.prompt.md").unwrap();
    assert_eq!(node.prompt_path, "prompts/b.prompt.md");
    assert_eq!(node.imports, vec![String::from("prompts/a.prompt.md")]);
    assert!(dag.get("prompts/zzz.prompt.md").is_none());

    let a_node = dag.get("prompts/a.prompt.md").unwrap();
    assert_eq!(a_node.dependents, vec![String::from("prompts/b.prompt.md")]);
}

#[test]
fn test_order_is_input_order_independent() {
    // The emitted order depends only on the prompt set: among
    // simultaneously ready prompts the lexicographically least comes
    // first, whatever order the prompts were handed in.
    let a = make_prompt("prompts/a.prompt.md", &["src/a.py"], &[]);
    let b = make_prompt("prompts/b.prompt.md", &["src/b.py"], &["prompts/a.prompt.md"]);
    let c = make_prompt("prompts/c.prompt.md", &["src/c.py"], &[]);
    let dag = Dag::build(&vec![c, b, a]).unwrap();
    let order: Vec<&str> = dag.order().iter().map(|p| p.as_str()).collect();
    assert_eq!(
        order,
        vec!["prompts/a.prompt.md", "prompts/b.prompt.md", "prompts/c.prompt.md"]
    );
}
