use taskfile_lsp::ast::Span;
use taskfile_lsp::parser::parse;
use taskfile_lsp::server::{
    build_hover_for_task, column_defined, completion_items, document_symbols,
    find_include_path_at_position, find_word_at_position, hover_for, is_in_depends_context,
    task_definition, word_lookup_defined, EntryKind, SymbolTag,
};

#[test]
fn word_at_position() {
    let text = "task build-all {\n}";
    assert_eq!(find_word_at_position(text, 0, 7).as_deref(), Some("build-all"));
    assert_eq!(find_word_at_position(text, 0, 5).as_deref(), Some("build-all"));
    assert_eq!(find_word_at_position(text, 0, 4).as_deref(), Some("task"));
    assert_eq!(find_word_at_position(text, 0, 15), None);
    assert_eq!(find_word_at_position(text, 0, 100), None);
    assert_eq!(find_word_at_position(text, 5, 0), None);
}

#[test]
fn lookups_that_would_split_a_character() {
    let text = "é";
    assert!(!word_lookup_defined(text, 0, 1));
    assert!(word_lookup_defined(text, 0, 2));
    assert!(!column_defined(text, 0, 1));
    assert!(column_defined(text, 0, 0));
    assert!(column_defined(text, 3, 1));
    let text = "→ab";
    assert!(!word_lookup_defined(text, 0, 4));
}

#[test]
fn depends_context() {
    assert!(is_in_depends_context("task a depends=[b, ", 0, 19));
    assert!(!is_in_depends_context("task a depends=[b] ", 0, 19));
    assert!(is_in_depends_context("task a depends_parallel=[", 0, 100));
    assert!(!is_in_depends_context("task a [x] ", 0, 11));
    assert!(!is_in_depends_context("", 3, 0));
}

#[test]
fn completion_in_depends_lists_task_names() {
    let text = "@description Clean up\ntask clean {\n}\ntask test {\n}\ntask build depends=[";
    let ast = parse(text);
    // The unfinished header of `build` is not a task yet.
    let items = completion_items(text, &ast, 5, 20);
    let labels: Vec<&str> = items.iter().map(|i| i.label.as_str()).collect();
    assert_eq!(labels, vec!["clean", "test"]);
    assert_eq!(items[0].kind, EntryKind::Function);
    assert_eq!(items[0].detail.as_deref(), Some("Clean up"));
}

#[test]
fn completion_of_keywords() {
    let text = "\ntask x ";
    let ast = parse("");
    let items = completion_items(text, &ast, 0, 0);
    let labels: Vec<&str> = items.iter().map(|i| i.label.as_str()).collect();
    assert_eq!(
        labels,
        vec!["task", "export", "alias", "include", "dotenv", "@description", "@confirm"]
    );
    assert_eq!(items[0].detail.as_deref(), Some("Define a new task"));
    let items = completion_items(text, &ast, 1, 7);
    assert_eq!(items.len(), 9);
    assert_eq!(items[7].label, "depends");
    assert_eq!(items[7].insert_text.as_deref(), Some("depends=[$0]"));
    assert!(items[7].snippet);
    assert_eq!(items[8].insert_text.as_deref(), Some("depends_parallel=[$0]"));
    let items = completion_items("  echo", &ast, 0, 6);
    assert!(items.is_empty());
}

#[test]
fn hover_on_task_name() {
    let text = "task build {\n}\n";
    let ast = parse(text);
    let (content, span) = hover_for(text, &ast, 0, 6).expect("a hover");
    assert_eq!(content, "**task** `build`");
    assert_eq!(span, Span::new(0, 5, 0, 10));
    assert!(hover_for(text, &ast, 1, 0).is_none());
}

#[test]
fn hover_text_of_a_full_task() {
    let ast = parse(
        "@description Build it\ntask b [x=\"1\" y] depends=[c] depends_parallel=[d, e] {\n}",
    );
    assert_eq!(
        build_hover_for_task(&ast.tasks[0]),
        "**task** `b`\n\nBuild it\n\n**Parameters:** x=\"1\", y\n\n**Depends:** c\n\n**Parallel depends:** d, e"
    );
}

#[test]
fn definition_of_a_dependency() {
    let text = "task clean {\n}\ntask build depends=[clean] {\n}";
    let ast = parse(text);
    assert_eq!(task_definition(text, &ast, 2, 22), Some(Span::new(0, 5, 0, 10)));
    assert_eq!(task_definition(text, &ast, 2, 13), None);
}

#[test]
fn definition_at_a_task_name_is_its_name_span() {
    let text = "task a {\n}\n  task b {\n}\ntask a {\n}";
    let ast = parse(text);
    for t in &ast.tasks {
        let first = ast.tasks.iter().find(|u| u.name == t.name).unwrap();
        assert_eq!(
            task_definition(text, &ast, t.name_span.start_line, t.name_span.start_col),
            Some(first.name_span)
        );
    }
}

#[test]
fn include_under_cursor() {
    let text = "include \"a.Taskfile\"\nexport X=1\ninclude b";
    let ast = parse(text);
    assert_eq!(find_include_path_at_position(&ast, 0).as_deref(), Some("a.Taskfile"));
    assert_eq!(find_include_path_at_position(&ast, 1), None);
    for inc in &ast.includes {
        assert!(find_include_path_at_position(&ast, inc.span.start_line).is_some());
    }
}

#[test]
fn outline_of_a_document() {
    let text = "dotenv .env\ninclude x\nalias l=ls\nexport A=1\ntask t {\n}";
    let ast = parse(text);
    let symbols = document_symbols(&ast);
    let names: Vec<(&str, SymbolTag)> = symbols.iter().map(|s| (s.name.as_str(), s.kind)).collect();
    assert_eq!(
        names,
        vec![
            ("t", SymbolTag::Function),
            ("A", SymbolTag::Variable),
            ("l", SymbolTag::Function),
            ("x", SymbolTag::Module),
            (".env", SymbolTag::File),
        ]
    );
    assert_eq!(symbols[0].span, Span::new(4, 0, 5, 1));
}
