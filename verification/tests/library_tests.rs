use taskfile_lsp::ast::{DiagnosticSeverity, Span};
use taskfile_lsp::parser::{braces_fit_in, count_braces, dedent_body, dedent_is_safe, parse, try_parse, unquote};

fn lines(ls: &[&str]) -> Vec<Vec<char>> {
    ls.iter().map(|l| l.chars().collect()).collect()
}

#[test]
fn span_constructors() {
    let s = Span::new(1, 2, 3, 4);
    assert_eq!((s.start_line, s.start_col, s.end_line, s.end_col), (1, 2, 3, 4));
    let p = Span::point(7, 9);
    assert_eq!(p, Span::new(7, 9, 7, 9));
}

#[test]
fn unquote_strips_one_pair_of_quotes() {
    assert_eq!(unquote("  \"abc\"  "), "abc");
    assert_eq!(unquote("'x y'"), "x y");
    assert_eq!(unquote("\"abc'"), "\"abc'");
    assert_eq!(unquote("\""), "\"");
    assert_eq!(unquote("\"\""), "");
    assert_eq!(unquote("plain"), "plain");
    assert_eq!(unquote("\"'a'\""), "'a'");
}

#[test]
fn count_braces_skips_strings_and_comments() {
    let mut depth = 1;
    count_braces("echo {a} } # {", &mut depth);
    assert_eq!(depth, 0);
    let mut depth = 1;
    count_braces("echo '{' \"}\"", &mut depth);
    assert_eq!(depth, 1);
    let mut depth = 1;
    count_braces("echo \\\"{", &mut depth);
    assert_eq!(depth, 2);
    let mut depth = 0;
    count_braces("}}", &mut depth);
    assert_eq!(depth, -2);
}

#[test]
fn count_braces_at_the_limits_of_i32() {
    let mut depth = i32::MAX;
    count_braces("echo no braces # {{{", &mut depth);
    assert_eq!(depth, i32::MAX);
    let mut depth = i32::MAX - 1;
    count_braces("{}", &mut depth);
    assert_eq!(depth, i32::MAX - 1);
    let mut depth = i32::MIN + 1;
    count_braces("'}' }", &mut depth);
    assert_eq!(depth, i32::MIN);
    let open: Vec<char> = "{".chars().collect();
    assert!(braces_fit_in(&open, i32::MAX - 1));
    assert!(!braces_fit_in(&open, i32::MAX));
    let close: Vec<char> = "}".chars().collect();
    assert!(!braces_fit_in(&close, i32::MIN));
    let quoted: Vec<char> = "'{' # {".chars().collect();
    assert!(braces_fit_in(&quoted, i32::MAX));
}

#[test]
fn dedent_removes_common_indentation() {
    let body = lines(&["    a", "", "      b"]);
    assert!(dedent_is_safe(&body));
    assert_eq!(dedent_body(&body), "a\n\n  b");
    let blank = lines(&["   ", " "]);
    assert_eq!(dedent_body(&blank), "   \n ");
    assert_eq!(dedent_body(&Vec::new()), "");
}

#[test]
fn dedent_that_would_split_a_character_is_refused() {
    let body = lines(&["\u{3000}x", "  y"]);
    assert!(!dedent_is_safe(&body));
    assert!(try_parse("task a {\n\u{3000}x\n  y\n}").is_none());
}

#[test]
fn try_parse_agrees_with_parse() {
    let input = "task a {\n  echo\n}\nexport X=1";
    let a = try_parse(input).expect("parses");
    let b = parse(input);
    assert_eq!(a.tasks.len(), b.tasks.len());
    assert_eq!(a.exports[0].value, b.exports[0].value);
}

#[test]
fn task_params_and_their_spans() {
    let ast = parse("task deploy [env=\"prod\" dry_run] {\n  echo\n}");
    assert!(ast.diagnostics.is_empty());
    let t = &ast.tasks[0];
    assert_eq!(t.params.len(), 2);
    assert_eq!(t.params[0].name, "env");
    assert_eq!(t.params[0].default.as_deref(), Some("prod"));
    assert_eq!(t.params[0].span, Span::new(0, 13, 0, 23));
    assert_eq!(t.params[1].name, "dry_run");
    assert_eq!(t.params[1].default, None);
    assert_eq!(t.params[1].span, Span::new(0, 24, 0, 31));
    assert_eq!(t.params[0].to_string(), "env=\"prod\"");
    assert_eq!(t.params[1].to_string(), "dry_run");
}

#[test]
fn quoted_default_with_escapes_and_bare_default() {
    let ast = parse("task t [a=\"x\\\"y\" b=plain] {\n}");
    let t = &ast.tasks[0];
    assert_eq!(t.params[0].default.as_deref(), Some("x\"y"));
    assert_eq!(t.params[1].default.as_deref(), Some("plain"));
}

#[test]
fn dependency_spans() {
    let ast = parse("task build depends=[clean, test] {\n}");
    let t = &ast.tasks[0];
    assert_eq!(t.dependencies[0].span, Span::new(0, 20, 0, 25));
    assert_eq!(t.dependencies[1].span, Span::new(0, 27, 0, 31));
}

#[test]
fn parallel_dependencies() {
    let ast = parse("task all depends_parallel=[a,b] depends=[c] {\n}");
    let t = &ast.tasks[0];
    assert_eq!(t.parallel_dependencies.len(), 2);
    assert_eq!(t.parallel_dependencies[1].name, "b");
    assert_eq!(t.dependencies[0].name, "c");
}

#[test]
fn task_name_and_task_spans() {
    let ast = parse("  task build {\n    echo hi\n  }");
    let t = &ast.tasks[0];
    assert_eq!(t.name_span, Span::new(0, 7, 0, 12));
    assert_eq!(t.span, Span::new(0, 2, 2, 3));
    assert_eq!(t.body, "echo hi");
}

#[test]
fn brace_on_the_next_line() {
    let ast = parse("task a\n# comment\n\n{\n  echo\n}");
    assert!(ast.diagnostics.is_empty());
    assert_eq!(ast.tasks[0].body, "echo");
    assert_eq!(ast.tasks[0].span.end_line, 5);
}

#[test]
fn text_before_closing_brace_is_kept() {
    let ast = parse("task a {\n  echo hi }");
    assert_eq!(ast.tasks[0].body, "echo hi ");
}

#[test]
fn nested_braces_in_body() {
    let ast = parse("task a {\n  if true; then { echo; }; fi\n}\ntask b {\n}");
    assert_eq!(ast.tasks.len(), 2);
    assert_eq!(ast.tasks[0].body, "if true; then { echo; }; fi");
}

fn first_message(input: &str) -> String {
    let ast = parse(input);
    assert!(!ast.diagnostics.is_empty(), "no diagnostic for {:?}", input);
    ast.diagnostics[0].message.clone()
}

#[test]
fn task_errors() {
    assert_eq!(first_message("task {\n}"), "expected task name");
    assert_eq!(first_message("task a"), "expected '{' for task 'a'");
    assert_eq!(first_message("task a\nfoo"), "expected '{' to open task body");
    assert_eq!(first_message("task a {\n echo"), "unclosed '{' for task 'a'");
    assert_eq!(first_message("task a [x {"), "unterminated parameter list");
    assert_eq!(first_message("task a depends=[b {"), "unterminated depends list");
    assert_eq!(first_message("task a junk {"), "unexpected token in task header: junk {");
}

#[test]
fn task_error_spans() {
    let ast = parse("task {\n}");
    assert_eq!(ast.diagnostics[0].span, Span::new(0, 5, 0, 6));
    assert_eq!(ast.diagnostics[0].severity, DiagnosticSeverity::Error);
    let ast = parse("task a {\n echo");
    assert_eq!(ast.diagnostics[0].span, Span::new(0, 0, 1, 0));
    let ast = parse("task a [x {");
    assert_eq!(ast.diagnostics[0].span, Span::new(0, 0, 0, 11));
}

#[test]
fn declaration_errors() {
    assert_eq!(first_message("export FOO"), "expected '=' in export statement");
    assert_eq!(first_message("export =1"), "empty export key");
    assert_eq!(first_message("alias ll"), "expected '=' in alias statement");
    assert_eq!(first_message("alias = x"), "empty alias name");
    assert_eq!(first_message("include \"\""), "empty include path");
    assert_eq!(first_message("dotenv ''"), "empty dotenv path");
    assert_eq!(first_message("include"), "unexpected line: include");
}

#[test]
fn declaration_span_starts_at_first_non_blank_column() {
    let ast = parse("  export A = 'b'  ");
    assert_eq!(ast.exports[0].key, "A");
    assert_eq!(ast.exports[0].value, "b");
    assert_eq!(ast.exports[0].span, Span::new(0, 2, 0, 18));
}

#[test]
fn unexpected_line_span_covers_the_line() {
    let ast = parse("\n  what is this");
    assert_eq!(ast.diagnostics[0].span, Span::new(1, 0, 1, 14));
    assert_eq!(ast.diagnostics[0].message, "unexpected line: what is this");
}

#[test]
fn confirm_annotation() {
    let ast = parse("@confirm\ntask a {\n}\n@confirm Really?\n@description Wipe\ntask b {\n}");
    assert_eq!(ast.tasks[0].confirm.as_deref(), Some("Are you sure?"));
    assert_eq!(ast.tasks[0].description, None);
    assert_eq!(ast.tasks[1].confirm.as_deref(), Some("Really?"));
    assert_eq!(ast.tasks[1].description.as_deref(), Some("Wipe"));
}

#[test]
fn trailing_annotations_warn() {
    let ast = parse("@description x\n@confirm");
    assert_eq!(ast.diagnostics.len(), 2);
    assert_eq!(ast.diagnostics[0].message, "@description not followed by a task definition");
    assert_eq!(ast.diagnostics[0].span, Span::point(0, 0));
    assert_eq!(ast.diagnostics[1].message, "@confirm not followed by a task definition");
    assert_eq!(ast.diagnostics[1].span, Span::point(1, 0));
    assert_eq!(ast.diagnostics[1].severity, DiagnosticSeverity::Warning);
}

#[test]
fn annotation_before_declaration_warns_at_its_line() {
    let ast = parse("\n@confirm\nalias a=b");
    assert_eq!(ast.diagnostics.len(), 1);
    assert_eq!(
        ast.diagnostics[0].message,
        "@description/@confirm must be followed by a task definition"
    );
    assert_eq!(ast.diagnostics[0].span, Span::point(1, 0));
    assert_eq!(ast.aliases.len(), 1);
}

#[test]
fn recovery_after_malformed_task() {
    let ast = parse("task {\n echo\n}\ntask b {\n}");
    assert_eq!(ast.diagnostics.len(), 1);
    assert_eq!(ast.tasks.len(), 1);
    assert_eq!(ast.tasks[0].name, "b");
    let ast = parse("task a [x\n echo\nexport Y=1");
    assert_eq!(ast.exports.len(), 1);
}

#[test]
fn crlf_lines() {
    let ast = parse("export A=1\r\nexport B=2\r");
    assert_eq!(ast.exports.len(), 2);
    assert_eq!(ast.exports[0].value, "1");
    assert_eq!(ast.exports[1].value, "2");
}

#[test]
fn comments_and_blank_lines_are_skipped() {
    let ast = parse("# a comment\n\n   \n  # another\nexport A=1");
    assert!(ast.diagnostics.is_empty());
    assert_eq!(ast.exports.len(), 1);
    assert_eq!(ast.exports[0].span.start_line, 4);
}

#[test]
fn multibyte_columns_are_counted_in_bytes() {
    let ast = parse("export É=\"ü\"");
    assert_eq!(ast.exports[0].key, "É");
    assert_eq!(ast.exports[0].span, Span::new(0, 0, 0, 14));
    let ast = parse("task déjà {\n}");
    assert_eq!(ast.tasks[0].name, "déjà");
    assert_eq!(ast.tasks[0].name_span, Span::new(0, 5, 0, 11));
}

#[test]
fn parsed_items_stand_on_lines_of_the_document() {
    let input = "export A=1\ntask a {\n}\nbad\ninclude x\ndotenv y\n@confirm";
    let ast = parse(input);
    let n = input.lines().count() as u32;
    for t in &ast.tasks {
        assert!(!t.name.is_empty());
        assert!(t.span.end_line < n);
    }
    for d in &ast.diagnostics {
        assert!(d.span.start_line < n);
    }
    for e in &ast.exports {
        assert_eq!(e.span.start_line, e.span.end_line);
    }
}

#[test]
fn leading_newline_moves_every_span_down_one_line() {
    let s = "@description Build it\ntask build [mode=fast] depends=[lint] depends_parallel=[a, b] {\n  cargo build\n}\nexport X=1\nalias b=build\ninclude \"lib.tf\"\ndotenv .env\nbogus line\ntask\n";
    let a = parse(s);
    let shifted = format!("\n{}", s);
    let b = parse(&shifted);
    let down = |sp: Span| Span::new(sp.start_line + 1, sp.start_col, sp.end_line + 1, sp.end_col);
    assert_eq!(a.tasks.len(), 1);
    assert_eq!(b.tasks.len(), 1);
    let (ta, tb) = (&a.tasks[0], &b.tasks[0]);
    assert_eq!(tb.name, ta.name);
    assert_eq!(tb.body, ta.body);
    assert_eq!(tb.description, ta.description);
    assert_eq!(tb.span, down(ta.span));
    assert_eq!(tb.name_span, down(ta.name_span));
    assert_eq!(tb.params[0].span, down(ta.params[0].span));
    assert_eq!(tb.params[0].default, ta.params[0].default);
    assert_eq!(tb.dependencies[0].span, down(ta.dependencies[0].span));
    assert_eq!(tb.parallel_dependencies[1].span, down(ta.parallel_dependencies[1].span));
    assert_eq!(b.exports[0].span, down(a.exports[0].span));
    assert_eq!(b.aliases[0].span, down(a.aliases[0].span));
    assert_eq!(b.includes[0].span, down(a.includes[0].span));
    assert_eq!(b.includes[0].path, a.includes[0].path);
    assert_eq!(b.dotenv[0].span, down(a.dotenv[0].span));
    assert_eq!(b.diagnostics.len(), a.diagnostics.len());
    assert_eq!(a.diagnostics.len(), 2);
    for k in 0..a.diagnostics.len() {
        assert_eq!(b.diagnostics[k].span, down(a.diagnostics[k].span));
        assert_eq!(b.diagnostics[k].message, a.diagnostics[k].message);
    }
    assert_eq!(ta.span, Span::new(1, 0, 3, 1));
}
