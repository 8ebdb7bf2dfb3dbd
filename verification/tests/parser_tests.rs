use taskfile_lsp::parser::parse;

#[test]
fn parse_single_task() {
    let input = "task build {\n  echo \"building\"\n}";
    let ast = parse(input);
    assert!(ast.diagnostics.is_empty());
    assert_eq!(ast.tasks.len(), 1);
    assert_eq!(ast.tasks[0].name, "build");
    assert!(ast.tasks[0].body.contains("echo"));
}

#[test]
fn parse_task_with_depends() {
    let input = "task build depends=[clean, test] {\n  echo \"building\"\n}";
    let ast = parse(input);
    assert!(ast.diagnostics.is_empty());
    assert_eq!(ast.tasks[0].dependencies.len(), 2);
    assert_eq!(ast.tasks[0].dependencies[0].name, "clean");
    assert_eq!(ast.tasks[0].dependencies[1].name, "test");
}

#[test]
fn parse_exports_and_aliases() {
    let input = "export FOO=\"bar\"\nalias ll=\"ls -la\"";
    let ast = parse(input);
    assert!(ast.diagnostics.is_empty());
    assert_eq!(ast.exports.len(), 1);
    assert_eq!(ast.exports[0].key, "FOO");
    assert_eq!(ast.aliases.len(), 1);
    assert_eq!(ast.aliases[0].name, "ll");
}

#[test]
fn parse_include_and_dotenv() {
    let input = "include \"tasks/docker.Taskfile\"\ndotenv \".env\"";
    let ast = parse(input);
    assert!(ast.diagnostics.is_empty());
    assert_eq!(ast.includes.len(), 1);
    assert_eq!(ast.includes[0].path, "tasks/docker.Taskfile");
    assert_eq!(ast.dotenv.len(), 1);
    assert_eq!(ast.dotenv[0].path, ".env");
}

#[test]
fn error_recovery_bad_line() {
    let input = "garbage line\ntask build {\n  echo hi\n}";
    let ast = parse(input);
    assert_eq!(ast.diagnostics.len(), 1);
    assert!(ast.diagnostics[0].message.contains("unexpected line"));
    assert_eq!(ast.tasks.len(), 1);
    assert_eq!(ast.tasks[0].name, "build");
}

#[test]
fn error_recovery_annotation_not_followed_by_task() {
    let input = "@description Something\nexport FOO=\"bar\"";
    let ast = parse(input);
    assert!(!ast.diagnostics.is_empty());
    assert_eq!(ast.exports.len(), 1);
}

#[test]
fn parse_full_example() {
    let input = r#"include "tasks/docker.Taskfile"

dotenv ".env"

export PROJECT="myapp"

alias ll="ls -la"

@description Build the project
task build depends=[clean] {
  echo "Building..."
}

task clean {
  rm -rf target/
}"#;
    let ast = parse(input);
    assert!(ast.diagnostics.is_empty(), "{:?}", ast.diagnostics);
    assert_eq!(ast.tasks.len(), 2);
    assert_eq!(ast.includes.len(), 1);
    assert_eq!(ast.dotenv.len(), 1);
    assert_eq!(ast.exports.len(), 1);
    assert_eq!(ast.aliases.len(), 1);
    assert_eq!(
        ast.tasks[0].description.as_deref(),
        Some("Build the project")
    );
}
