//! What the language server answers about a document: completions, hover
//! text, definitions, the include under the cursor and the document outline.
//!
//! Positions are a zero-based line and a byte column in that line, as the
//! server receives them.
use vstd::prelude::*;

use crate::ast::{opt_view, param_text, Ast, Include, Span, Task, TaskModel, AstModel};
use crate::lines::{lemma_lines_of_bounds, range_to_vec, split_lines};
use crate::model::chars_within;
use crate::parser::chars_within_exec;
use crate::text::{
    chars_of, count_char, count_char_exec, find_class, find_seq, find_seq_exec, first_in,
    join_sep, join_strings, last_in, lemma_utf8_len_subrange, lines_of, lines_view, range_to_string,
    rfind_class, rfind_seq, rfind_seq_exec, starts_with, starts_with_str, string_of,
    strings_view, trim_start, trim_start_bound, utf8_len, utf8_len_range, utf8_width, CharClass,
};

verus! {

/// Line `line` of a document, if it has one.
pub open spec fn doc_line(text: Seq<char>, line: u32) -> Option<Seq<char>> {
    let ls = lines_of(text);
    if line < ls.len() {
        Some(ls[line as int])
    } else {
        None
    }
}

/// Whether byte column `col` of `l` lies between two characters.
pub open spec fn on_char_boundary(l: Seq<char>, col: int) -> bool {
    utf8_len(l.take(chars_within(l, col))) == col
}

/// The part of a line before byte column `col`, or the whole line when `col` is past its end.
pub open spec fn before_column(l: Seq<char>, col: int) -> Seq<char> {
    if col >= utf8_len(l) {
        l
    } else {
        l.take(chars_within(l, col))
    }
}

// ---------------------------------------------------------------------------
// The word under the cursor
/// The index of the last character before index `k` that cannot be in a name, or -1.
pub open spec fn word_start_char(l: Seq<char>, k: int) -> int {
    last_in(l.take(k), CharClass::NotNameChar)
}

/// The index of the first character at or after index `k` that cannot be in a name, or the end.
pub open spec fn word_end_char(l: Seq<char>, k: int) -> int {
    k + first_in(l.skip(k), CharClass::NotNameChar)
}

/// The byte where the word starts: one past the start of the separator before it.
pub open spec fn word_start_byte(l: Seq<char>, k: int) -> int {
    let q = word_start_char(l, k);
    if q >= 0 {
        utf8_len(l.take(q)) as int + 1
    } else {
        0
    }
}

/// The byte where the word ends.
pub open spec fn word_end_byte(l: Seq<char>, k: int) -> int {
    utf8_len(l.take(word_end_char(l, k))) as int
}

/// The run of name characters (alphanumeric, `-`, `_`) around byte column
/// `character` of line `line`, if it is not empty.
pub open spec fn spec_find_word(text: Seq<char>, line: u32, character: u32) -> Option<Seq<char>> {
    match doc_line(text, line) {
        None => None,
        Some(l) => if character > utf8_len(l) {
            None
        } else {
            let k = chars_within(l, character as int);
            if word_start_byte(l, k) >= word_end_byte(l, k) {
                None
            } else {
                Some(l.subrange(word_start_char(l, k) + 1, word_end_char(l, k)))
            }
        },
    }
}

/// The positions at which looking up the word does not slice a `str` inside
/// a character: the column lies between two characters, and a separator
/// before a non-empty word is a one-byte character.
pub open spec fn word_lookup_ok(text: Seq<char>, line: u32, character: u32) -> bool {
    match doc_line(text, line) {
        None => true,
        Some(l) => character > utf8_len(l) || {
            let k = chars_within(l, character as int);
            let q = word_start_char(l, k);
            &&& on_char_boundary(l, character as int)
            &&& (q >= 0 && utf8_width(l[q]) > 1) ==> word_start_byte(l, k) >= word_end_byte(l, k)
        },
    }
}

/// The line `line` of `text` as characters, if there is one.
fn line_of(text: &str, line: u32) -> (r: Option<Vec<char>>)
    requires
        utf8_len(text@) <= usize::MAX,
    ensures
        match (r, doc_line(text@, line)) {
            (Some(v), Some(l)) => v@ == l && utf8_len(l) <= usize::MAX,
            (None, None) => true,
            _ => false,
        },
{
    let chars = chars_of(text);
    let lines = split_lines(&chars);
    proof {
        lemma_lines_of_bounds(text@);
    }
    let n = line as usize;
    if n < lines.len() {
        let l = &lines[n];
        assert(lines_view(lines@)[n as int] == l@);
        Some(range_to_vec(l, 0, l.len()))
    } else {
        None
    }
}

/// The name-like word around byte column `character` of line `line`.
pub fn find_word_at_position(text: &str, line: u32, character: u32) -> (r: Option<String>)
    requires
        utf8_len(text@) <= usize::MAX,
        word_lookup_ok(text@, line, character),
    ensures
        opt_view(r) == spec_find_word(text@, line, character),
{
    let l = match line_of(text, line) {
        Some(l) => l,
        None => {
            return None;
        },
    };
    assert(l@.subrange(0, l.len() as int) =~= l@);
    let total = utf8_len_range(&l, 0, l.len());
    let col = character as usize;
    if col > total {
        return None;
    }
    let (k, _acc) = chars_within_exec(&l, col);
    let q1 = rfind_class(&l, 0, k, CharClass::NotNameChar);
    let e = find_class(&l, k, l.len(), CharClass::NotNameChar);
    assert(l@.subrange(0, k as int) =~= l@.take(k as int));
    assert(l@.subrange(k as int, l.len() as int) =~= l@.skip(k as int));
    proof {
        lemma_utf8_len_subrange(l@, 0, e as int);
        if q1 > 0 {
            lemma_utf8_len_subrange(l@, 0, q1 - 1);
            lemma_utf8_len_subrange(l@, 0, k as int);
            crate::text::lemma_utf8_len_take_step(l@, q1 - 1);
            assert(l@.subrange(0, q1 - 1) == l@.take(q1 - 1));
        }
    }
    let start_b = if q1 > 0 {
        utf8_len_range(&l, 0, q1 - 1) + 1
    } else {
        0
    };
    let end_b = utf8_len_range(&l, 0, e);
    if start_b >= end_b {
        return None;
    }
    Some(range_to_string(&l, q1, e))
}

// ---------------------------------------------------------------------------
// Dependency lists
/// Whether the text before the cursor is inside an open `depends=[` or
/// `depends_parallel=[` list: after the last such opening (of `depends=[` if
/// there is one), more `[` than `]`.
pub open spec fn spec_in_depends_context(text: Seq<char>, line: u32, character: u32) -> bool {
    match doc_line(text, line) {
        None => false,
        Some(l) => {
            let before = before_column(l, character as int);
            let has_open = find_seq(before, "depends=["@) is Some || find_seq(
                before,
                "depends_parallel=["@,
            ) is Some;
            let last_open = match rfind_seq(before, "depends=["@) {
                Some(p) => Some(p),
                None => rfind_seq(before, "depends_parallel=["@),
            };
            has_open && match last_open {
                Some(p) => count_char(before.skip(p), '[') > count_char(before.skip(p), ']'),
                None => false,
            }
        },
    }
}

/// The positions at which taking the text before the cursor does not slice a
/// `str` inside a character.
pub open spec fn column_ok(text: Seq<char>, line: u32, character: u32) -> bool {
    match doc_line(text, line) {
        None => true,
        Some(l) => character >= utf8_len(l) || on_char_boundary(l, character as int),
    }
}

/// The characters of line `l` before byte column `col`.
fn before_column_exec(l: &Vec<char>, col: usize) -> (r: Vec<char>)
    requires
        utf8_len(l@) <= usize::MAX,
    ensures
        r@ == before_column(l@, col as int),
{
    assert(l@.subrange(0, l.len() as int) =~= l@);
    let total = utf8_len_range(l, 0, l.len());
    if col >= total {
        range_to_vec(l, 0, l.len())
    } else {
        let (k, _acc) = chars_within_exec(l, col);
        range_to_vec(l, 0, k)
    }
}

/// Whether the cursor is inside an open `depends=[..]` or `depends_parallel=[..]` list.
pub fn is_in_depends_context(text: &str, line: u32, character: u32) -> (r: bool)
    requires
        utf8_len(text@) <= usize::MAX,
        column_ok(text@, line, character),
    ensures
        r == spec_in_depends_context(text@, line, character),
{
    let l = match line_of(text, line) {
        Some(l) => l,
        None => {
            return false;
        },
    };
    let before = before_column_exec(&l, character as usize);
    let deps = chars_of("depends=[");
    let pdeps = chars_of("depends_parallel=[");
    let has_open = find_seq_exec(&before, &deps).is_some() || find_seq_exec(
        &before,
        &pdeps,
    ).is_some();
    if !has_open {
        return false;
    }
    let last_open = match rfind_seq_exec(&before, &deps) {
        Some(p) => Some(p),
        None => rfind_seq_exec(&before, &pdeps),
    };
    match last_open {
        Some(p) => {
            proof {
                crate::text::lemma_rfind_seq_props(before@, deps@);
                crate::text::lemma_rfind_seq_props(before@, pdeps@);
            }
            assert(before@.subrange(p as int, before.len() as int) =~= before@.skip(p as int));
            let opens = count_char_exec(&before, p, before.len(), '[');
            let closes = count_char_exec(&before, p, before.len(), ']');
            opens > closes
        },
        None => false,
    }
}

// ---------------------------------------------------------------------------
// Completions
/// What a completion offers.
#[derive(Debug, Clone, Copy, PartialEq, Eq, Structural)]
pub enum EntryKind {
    /// A task name.
    Function,
    /// A keyword of the language.
    Keyword,
}

/// A completion offered to the editor.
#[derive(Debug, Clone)]
pub struct CompletionEntry {
    pub label: String,
    pub kind: EntryKind,
    pub detail: Option<String>,
    /// The text inserted, when it is not the label.
    pub insert_text: Option<String>,
    /// Whether `insert_text` is a snippet with a `$0` cursor stop.
    pub snippet: bool,
}

/// The model of a `CompletionEntry`.
pub struct CompletionModel {
    pub label: Seq<char>,
    pub kind: EntryKind,
    pub detail: Option<Seq<char>>,
    pub insert_text: Option<Seq<char>>,
    pub snippet: bool,
}

impl View for CompletionEntry {
    type V = CompletionModel;

    open spec fn view(&self) -> CompletionModel {
        CompletionModel {
            label: self.label@,
            kind: self.kind,
            detail: opt_view(self.detail),
            insert_text: opt_view(self.insert_text),
            snippet: self.snippet,
        }
    }
}

/// The models of a sequence of completions.
pub open spec fn entries_view(v: Seq<CompletionEntry>) -> Seq<CompletionModel> {
    Seq::new(v.len(), |i: int| v[i]@)
}

/// The completion of a task's name, with its description.
pub open spec fn task_entry(t: TaskModel) -> CompletionModel {
    CompletionModel {
        label: t.name,
        kind: EntryKind::Function,
        detail: t.description,
        insert_text: None,
        snippet: false,
    }
}

/// The completions of the names of the tasks, in order.
pub open spec fn task_entries(ts: Seq<TaskModel>) -> Seq<CompletionModel> {
    Seq::new(ts.len(), |i: int| task_entry(ts[i]))
}

/// The completion of a keyword.
pub open spec fn keyword_entry(label: Seq<char>, detail: Seq<char>) -> CompletionModel {
    CompletionModel {
        label,
        kind: EntryKind::Keyword,
        detail: Some(detail),
        insert_text: None,
        snippet: false,
    }
}

/// The top-level keywords, each with what it does.
pub open spec fn keyword_entries() -> Seq<CompletionModel> {
    seq![
        keyword_entry("task"@, "Define a new task"@),
        keyword_entry("export"@, "Export an environment variable"@),
        keyword_entry("alias"@, "Define a shell alias"@),
        keyword_entry("include"@, "Include another Taskfile"@),
        keyword_entry("dotenv"@, "Load a .env file"@),
        keyword_entry("@description"@, "Set task description"@),
        keyword_entry("@confirm"@, "Require confirmation before running"@),
    ]
}

/// The completion of a dependency keyword: a snippet `keyword=[$0]`.
pub open spec fn depends_entry(kw: Seq<char>) -> CompletionModel {
    CompletionModel {
        label: kw,
        kind: EntryKind::Keyword,
        detail: None,
        insert_text: Some(kw + "=[$0]"@),
        snippet: true,
    }
}

/// The text of the cursor's line before the cursor, without leading whitespace.
pub open spec fn typed_prefix(text: Seq<char>, line: u32, character: u32) -> Seq<char> {
    match doc_line(text, line) {
        Some(l) => trim_start(before_column(l, character as int)),
        None => Seq::empty(),
    }
}

/// Whether what is typed may begin a top-level declaration.
pub open spec fn is_toplevel_prefix(t: Seq<char>) -> bool {
    ||| t.len() == 0
    ||| starts_with(t, "ta"@)
    ||| starts_with(t, "ex"@)
    ||| starts_with(t, "al"@)
    ||| starts_with(t, "in"@)
    ||| starts_with(t, "do"@)
    ||| starts_with(t, "@"@)
}

/// The completions at a position: the task names inside a dependency list;
/// elsewhere the keywords when a top-level declaration may begin there, and
/// the dependency keywords on a task header.
pub open spec fn spec_completion(text: Seq<char>, tasks: Seq<TaskModel>, line: u32, character: u32) -> Seq<
    CompletionModel,
> {
    if spec_in_depends_context(text, line, character) {
        task_entries(tasks)
    } else {
        let t = typed_prefix(text, line, character);
        (if is_toplevel_prefix(t) {
            keyword_entries()
        } else {
            Seq::empty()
        }) + (if starts_with(t, "task "@) {
            seq![depends_entry("depends"@), depends_entry("depends_parallel"@)]
        } else {
            Seq::empty()
        })
    }
}

/// A copy of an optional text.
pub(crate) fn clone_text(o: &Option<String>) -> (r: Option<String>)
    ensures
        opt_view(r) == opt_view(*o),
{
    match o {
        Some(s) => Some(s.clone()),
        None => None,
    }
}

/// A keyword completion.
fn keyword(label: &str, detail: &str) -> (r: CompletionEntry)
    ensures
        r@ == keyword_entry(label@, detail@),
{
    CompletionEntry {
        label: string_of(label),
        kind: EntryKind::Keyword,
        detail: Some(string_of(detail)),
        insert_text: None,
        snippet: false,
    }
}

/// A dependency keyword completion.
fn depends_keyword(kw: &str) -> (r: CompletionEntry)
    ensures
        r@ == depends_entry(kw@),
{
    let mut insert = string_of(kw);
    insert.append("=[$0]");
    CompletionEntry {
        label: string_of(kw),
        kind: EntryKind::Keyword,
        detail: None,
        insert_text: Some(insert),
        snippet: true,
    }
}

/// Appends `e` to `items`.
fn push_entry(items: &mut Vec<CompletionEntry>, e: CompletionEntry)
    ensures
        entries_view(final(items)@) == entries_view(old(items)@).push(e@),
{
    let ghost i0 = items@;
    items.push(e);
    assert(entries_view(items@) =~= entries_view(i0).push(e@));
}

/// The completions at a position of the document `text`, whose syntax tree is `ast`.
pub fn completion_items(text: &str, ast: &Ast, line: u32, character: u32) -> (r: Vec<CompletionEntry>)
    requires
        utf8_len(text@) <= usize::MAX,
        column_ok(text@, line, character),
    ensures
        entries_view(r@) == spec_completion(text@, ast@.tasks, line, character),
{
    let mut items: Vec<CompletionEntry> = Vec::new();
    if is_in_depends_context(text, line, character) {
        let mut k: usize = 0;
        let ghost ts = ast@.tasks;
        while k < ast.tasks.len()
            invariant
                k <= ast.tasks.len(),
                ts == ast@.tasks,
                entries_view(items@) == task_entries(ts).take(k as int),
            decreases ast.tasks.len() - k,
        {
            let t = &ast.tasks[k];
            assert(ts[k as int] == t@);
            let e = CompletionEntry {
                label: t.name.clone(),
                kind: EntryKind::Function,
                detail: clone_text(&t.description),
                insert_text: None,
                snippet: false,
            };
            push_entry(&mut items, e);
            assert(task_entries(ts).take(k + 1) =~= task_entries(ts).take(k as int).push(e@));
            k += 1;
        }
        assert(task_entries(ts).take(ast.tasks.len() as int) =~= task_entries(ts));
        return items;
    }
    let typed: Vec<char> = match line_of(text, line) {
        Some(l) => {
            let before = before_column_exec(&l, character as usize);
            let a = trim_start_bound(&before, 0, before.len());
            assert(before@.subrange(0, before.len() as int) =~= before@);
            range_to_vec(&before, a, before.len())
        },
        None => Vec::new(),
    };
    let ghost t = typed_prefix(text@, line, character);
    assert(typed@ =~= t);
    let n = typed.len();
    assert(typed@.subrange(0, n as int) =~= typed@);
    if n == 0 || starts_with_str(&typed, 0, n, "ta") || starts_with_str(&typed, 0, n, "ex")
        || starts_with_str(&typed, 0, n, "al") || starts_with_str(&typed, 0, n, "in")
        || starts_with_str(&typed, 0, n, "do") || starts_with_str(&typed, 0, n, "@") {
        push_entry(&mut items, keyword("task", "Define a new task"));
        push_entry(&mut items, keyword("export", "Export an environment variable"));
        push_entry(&mut items, keyword("alias", "Define a shell alias"));
        push_entry(&mut items, keyword("include", "Include another Taskfile"));
        push_entry(&mut items, keyword("dotenv", "Load a .env file"));
        push_entry(&mut items, keyword("@description", "Set task description"));
        push_entry(&mut items, keyword("@confirm", "Require confirmation before running"));
        assert(entries_view(items@) =~= keyword_entries());
    } else {
        assert(entries_view(items@) =~= Seq::<CompletionModel>::empty());
    }
    let ghost before_deps = entries_view(items@);
    if starts_with_str(&typed, 0, n, "task ") {
        push_entry(&mut items, depends_keyword("depends"));
        push_entry(&mut items, depends_keyword("depends_parallel"));
        assert(entries_view(items@) =~= before_deps + seq![
            depends_entry("depends"@),
            depends_entry("depends_parallel"@),
        ]);
    } else {
        assert(entries_view(items@) =~= before_deps + Seq::<CompletionModel>::empty());
    }
    items
}

// ---------------------------------------------------------------------------
// Hover and definitions
/// The index of the first task named `name`, if there is one.
pub open spec fn first_task_named(tasks: Seq<TaskModel>, name: Seq<char>) -> Option<int>
    decreases tasks.len(),
{
    if tasks.len() == 0 {
        None
    } else {
        match first_task_named(tasks.drop_last(), name) {
            Some(i) => Some(i),
            None => if tasks.last().name == name {
                Some(tasks.len() - 1)
            } else {
                None
            },
        }
    }
}

/// `first_task_named` finds the first task with the name.
pub proof fn lemma_first_task_named(tasks: Seq<TaskModel>, name: Seq<char>)
    ensures
        match first_task_named(tasks, name) {
            Some(i) => 0 <= i < tasks.len() && tasks[i].name == name && forall|j: int|
                0 <= j < i ==> #[trigger] tasks[j].name != name,
            None => forall|j: int| 0 <= j < tasks.len() ==> #[trigger] tasks[j].name != name,
        },
    decreases tasks.len(),
{
    if tasks.len() > 0 {
        lemma_first_task_named(tasks.drop_last(), name);
        assert forall|j: int| 0 <= j < tasks.len() - 1 implies #[trigger] tasks[j] == tasks.drop_last()[j] by {}
    }
}

/// The paragraphs of the hover text of a task: its name, its description,
/// its parameters, its dependencies and its parallel dependencies, each when present.
pub open spec fn hover_parts(t: TaskModel) -> Seq<Seq<char>> {
    let p0 = seq!["**task** `"@ + t.name + "`"@];
    let p1 = match t.description {
        Some(d) => p0.push(d),
        None => p0,
    };
    let p2 = if t.params.len() > 0 {
        p1.push("**Parameters:** "@ + join_sep(t.params.map_values(|p| param_text(p)), ", "@))
    } else {
        p1
    };
    let p3 = if t.dependencies.len() > 0 {
        p2.push("**Depends:** "@ + join_sep(t.dependencies.map_values(|d: crate::ast::DependencyModel| d.name), ", "@))
    } else {
        p2
    };
    if t.parallel_dependencies.len() > 0 {
        p3.push("**Parallel depends:** "@ + join_sep(t.parallel_dependencies.map_values(|d: crate::ast::DependencyModel| d.name), ", "@))
    } else {
        p3
    }
}

/// The hover text of a task: its paragraphs separated by blank lines.
pub open spec fn hover_text(t: TaskModel) -> Seq<char> {
    join_sep(hover_parts(t), "\n\n"@)
}

/// `prefix` followed by the names of the dependencies, separated by `, `.
fn names_line(prefix: &str, deps: &Vec<crate::ast::Dependency>) -> (r: String)
    ensures
        r@ == prefix@ + join_sep(
            crate::ast::deps_view(deps@).map_values(|d: crate::ast::DependencyModel| d.name),
            ", "@,
        ),
{
    let mut names: Vec<String> = Vec::new();
    let mut k: usize = 0;
    let ghost target = crate::ast::deps_view(deps@).map_values(|d: crate::ast::DependencyModel| d.name);
    while k < deps.len()
        invariant
            k <= deps.len(),
            target == crate::ast::deps_view(deps@).map_values(|d: crate::ast::DependencyModel| d.name),
            strings_view(names@) == target.take(k as int),
        decreases deps.len() - k,
    {
        let n = deps[k].name.clone();
        assert(crate::ast::deps_view(deps@)[k as int] == deps@[k as int]@);
        assert(target[k as int] == n@);
        let ghost n0 = names@;
        names.push(n);
        assert(strings_view(names@) =~= strings_view(n0).push(n@));
        assert(target.take(k + 1) =~= target.take(k as int).push(target[k as int]));
        k += 1;
    }
    assert(target.take(deps.len() as int) =~= target);
    let mut s = string_of(prefix);
    let joined = join_strings(&names, ", ");
    s.append(joined.as_str());
    s
}

/// The hover text of a task: its name, description, parameters and dependencies.
pub fn build_hover_for_task(task: &Task) -> (r: String)
    ensures
        r@ == hover_text(task@),
{
    let ghost t = task@;
    let mut parts: Vec<String> = Vec::new();
    let mut first = string_of("**task** `");
    first.append(task.name.as_str());
    first.append("`");
    parts.push(first);
    assert(strings_view(parts@) =~= seq!["**task** `"@ + t.name + "`"@]);
    match &task.description {
        Some(d) => {
            let ghost p = strings_view(parts@);
            parts.push(d.clone());
            assert(strings_view(parts@) =~= p.push(d@));
        },
        None => {},
    }
    if task.params.len() > 0 {
        let ghost p = strings_view(parts@);
        let mut texts: Vec<String> = Vec::new();
        let mut k: usize = 0;
        let ghost target = t.params.map_values(|p| param_text(p));
        while k < task.params.len()
            invariant
                k <= task.params.len(),
                t == task@,
                target == t.params.map_values(|p| param_text(p)),
                strings_view(texts@) == target.take(k as int),
            decreases task.params.len() - k,
        {
            let s = task.params[k].to_string();
            assert(t.params[k as int] == task.params@[k as int]@);
            assert(target[k as int] == s@);
            let ghost x0 = texts@;
            texts.push(s);
            assert(strings_view(texts@) =~= strings_view(x0).push(s@));
            assert(target.take(k + 1) =~= target.take(k as int).push(target[k as int]));
            k += 1;
        }
        assert(target.take(task.params.len() as int) =~= target);
        let mut line = string_of("**Parameters:** ");
        let joined = join_strings(&texts, ", ");
        line.append(joined.as_str());
        parts.push(line);
        assert(strings_view(parts@) =~= p.push(line@));
    }
    if task.dependencies.len() > 0 {
        let ghost p = strings_view(parts@);
        let line = names_line("**Depends:** ", &task.dependencies);
        parts.push(line);
        assert(strings_view(parts@) =~= p.push(line@));
    }
    if task.parallel_dependencies.len() > 0 {
        let ghost p = strings_view(parts@);
        let line = names_line("**Parallel depends:** ", &task.parallel_dependencies);
        parts.push(line);
        assert(strings_view(parts@) =~= p.push(line@));
    }
    assert(strings_view(parts@) =~= hover_parts(t));
    join_strings(&parts, "\n\n")
}

/// The index of the first task named `name`.
fn find_task(ast: &Ast, name: &String) -> (r: Option<usize>)
    ensures
        r matches Some(i) ==> i < ast.tasks.len(),
        match (r, first_task_named(ast@.tasks, name@)) {
            (Some(i), Some(si)) => i == si,
            (None, None) => true,
            _ => false,
        },
{
    let ghost ts = ast@.tasks;
    let mut k: usize = 0;
    assert(ts.take(0) =~= Seq::<TaskModel>::empty());
    while k < ast.tasks.len()
        invariant
            k <= ast.tasks.len(),
            ts == ast@.tasks,
            first_task_named(ts.take(k as int), name@) is None,
        decreases ast.tasks.len() - k,
    {
        assert(ts.take(k + 1).drop_last() =~= ts.take(k as int));
        assert(ts[k as int] == ast.tasks@[k as int]@);
        if ast.tasks[k].name == *name {
            proof {
                lemma_first_task_named(ts, name@);
                lemma_first_task_named(ts.take(k + 1), name@);
                if let Some(i) = first_task_named(ts, name@) {
                    if i < k {
                        assert(ts.take(k + 1)[i] == ts[i]);
                    } else if i > k {
                        assert(ts[k as int].name == name@);
                    }
                }
            }
            return Some(k);
        }
        k += 1;
    }
    assert(ts.take(ast.tasks.len() as int) =~= ts);
    None
}

/// The hover text and name span of the first task named by the word under the cursor.
pub open spec fn spec_hover(text: Seq<char>, tasks: Seq<TaskModel>, line: u32, character: u32) -> Option<(Seq<char>, Span)> {
    match spec_find_word(text, line, character) {
        None => None,
        Some(w) => match first_task_named(tasks, w) {
            None => None,
            Some(i) => Some((hover_text(tasks[i]), tasks[i].name_span)),
        },
    }
}

/// The hover for the position: the text and the name span of the first task
/// whose name is the word under the cursor.
pub fn hover_for(text: &str, ast: &Ast, line: u32, character: u32) -> (r: Option<(String, Span)>)
    requires
        utf8_len(text@) <= usize::MAX,
        word_lookup_ok(text@, line, character),
    ensures
        match (r, spec_hover(text@, ast@.tasks, line, character)) {
            (Some((s, span)), Some((ss, sspan))) => s@ == ss && span == sspan,
            (None, None) => true,
            _ => false,
        },
{
    let word = match find_word_at_position(text, line, character) {
        Some(w) => w,
        None => {
            return None;
        },
    };
    match find_task(ast, &word) {
        Some(i) => {
            let t = &ast.tasks[i];
            assert(ast@.tasks[i as int] == t@);
            Some((build_hover_for_task(t), t.name_span))
        },
        None => None,
    }
}

/// The name span of the first task named by the word under the cursor.
pub open spec fn spec_task_definition(text: Seq<char>, tasks: Seq<TaskModel>, line: u32, character: u32) -> Option<Span> {
    match spec_find_word(text, line, character) {
        None => None,
        Some(w) => match first_task_named(tasks, w) {
            None => None,
            Some(i) => Some(tasks[i].name_span),
        },
    }
}

/// Where the task named by the word under the cursor is defined: the name
/// span of the first task with that name.
pub fn task_definition(text: &str, ast: &Ast, line: u32, character: u32) -> (r: Option<Span>)
    requires
        utf8_len(text@) <= usize::MAX,
        word_lookup_ok(text@, line, character),
    ensures
        r == spec_task_definition(text@, ast@.tasks, line, character),
{
    let word = match find_word_at_position(text, line, character) {
        Some(w) => w,
        None => {
            return None;
        },
    };
    match find_task(ast, &word) {
        Some(i) => {
            assert(ast@.tasks[i as int] == ast.tasks@[i as int]@);
            Some(ast.tasks[i].name_span)
        },
        None => None,
    }
}

/// The path of the first include that stands on line `line` alone.
pub open spec fn spec_include_at(includes: Seq<crate::ast::PathModel>, line: u32) -> Option<Seq<char>>
    decreases includes.len(),
{
    if includes.len() == 0 {
        None
    } else if includes[0].span.start_line == line && includes[0].span.end_line == line {
        Some(includes[0].path)
    } else {
        spec_include_at(includes.drop_first(), line)
    }
}

/// The path of the include on line `line`, if there is one.
pub fn find_include_path_at_position(ast: &Ast, line: u32) -> (r: Option<String>)
    ensures
        opt_view(r) == spec_include_at(ast@.includes, line),
{
    let ghost inc = ast@.includes;
    let mut k: usize = 0;
    assert(inc.skip(0) =~= inc);
    while k < ast.includes.len()
        invariant
            k <= ast.includes.len(),
            inc == ast@.includes,
            spec_include_at(inc, line) == spec_include_at(inc.skip(k as int), line),
        decreases ast.includes.len() - k,
    {
        let i: &Include = &ast.includes[k];
        assert(inc[k as int] == i@);
        assert(inc.skip(k as int)[0] == inc[k as int]);
        assert(inc.skip(k as int).drop_first() =~= inc.skip(k + 1));
        if i.span.start_line == line && i.span.end_line == line {
            return Some(i.path.clone());
        }
        k += 1;
    }
    None
}

// ---------------------------------------------------------------------------
// Document outline
/// What a symbol of the outline is.
#[derive(Debug, Clone, Copy, PartialEq, Eq, Structural)]
pub enum SymbolTag {
    /// A task or an alias.
    Function,
    /// An exported variable.
    Variable,
    /// An included Taskfile.
    Module,
    /// A dotenv file.
    File,
}

/// A symbol of the document outline.
#[derive(Debug, Clone)]
pub struct SymbolEntry {
    pub name: String,
    pub kind: SymbolTag,
    pub span: Span,
}

/// The model of a `SymbolEntry`.
pub struct SymbolModel {
    pub name: Seq<char>,
    pub kind: SymbolTag,
    pub span: Span,
}

impl View for SymbolEntry {
    type V = SymbolModel;

    open spec fn view(&self) -> SymbolModel {
        SymbolModel { name: self.name@, kind: self.kind, span: self.span }
    }
}

/// The models of a sequence of symbols.
pub open spec fn symbols_view(v: Seq<SymbolEntry>) -> Seq<SymbolModel> {
    Seq::new(v.len(), |i: int| v[i]@)
}

/// The outline of a document: its tasks, exports, aliases, includes and dotenv files, in that order.
pub open spec fn spec_document_symbols(a: AstModel) -> Seq<SymbolModel> {
    a.tasks.map_values(|t: TaskModel| SymbolModel { name: t.name, kind: SymbolTag::Function, span: t.span })
        + a.exports.map_values(|e: crate::ast::ExportModel| SymbolModel { name: e.key, kind: SymbolTag::Variable, span: e.span })
        + a.aliases.map_values(|x: crate::ast::AliasModel| SymbolModel { name: x.name, kind: SymbolTag::Function, span: x.span })
        + a.includes.map_values(|x: crate::ast::PathModel| SymbolModel { name: x.path, kind: SymbolTag::Module, span: x.span })
        + a.dotenv.map_values(|x: crate::ast::PathModel| SymbolModel { name: x.path, kind: SymbolTag::File, span: x.span })
}

/// Appends a symbol to `out`.
fn push_symbol(out: &mut Vec<SymbolEntry>, name: String, kind: SymbolTag, span: Span)
    ensures
        symbols_view(final(out)@) == symbols_view(old(out)@).push(SymbolModel { name: name@, kind, span }),
{
    let ghost o0 = out@;
    out.push(SymbolEntry { name, kind, span });
    assert(symbols_view(out@) =~= symbols_view(o0).push(SymbolModel { name: name@, kind, span }));
}

/// The outline of a document: its tasks, exports, aliases, includes and dotenv files.
pub fn document_symbols(ast: &Ast) -> (r: Vec<SymbolEntry>)
    ensures
        symbols_view(r@) == spec_document_symbols(ast@),
{
    let ghost a = ast@;
    let mut out: Vec<SymbolEntry> = Vec::new();
    let ghost s1 = a.tasks.map_values(|t: TaskModel| SymbolModel { name: t.name, kind: SymbolTag::Function, span: t.span });
    let ghost s2 = a.exports.map_values(|e: crate::ast::ExportModel| SymbolModel { name: e.key, kind: SymbolTag::Variable, span: e.span });
    let ghost s3 = a.aliases.map_values(|x: crate::ast::AliasModel| SymbolModel { name: x.name, kind: SymbolTag::Function, span: x.span });
    let ghost s4 = a.includes.map_values(|x: crate::ast::PathModel| SymbolModel { name: x.path, kind: SymbolTag::Module, span: x.span });
    let ghost s5 = a.dotenv.map_values(|x: crate::ast::PathModel| SymbolModel { name: x.path, kind: SymbolTag::File, span: x.span });
    let mut k: usize = 0;
    while k < ast.tasks.len()
        invariant
            k <= ast.tasks.len(),
            a == ast@,
            s1 == a.tasks.map_values(|t: TaskModel| SymbolModel { name: t.name, kind: SymbolTag::Function, span: t.span }),
            symbols_view(out@) == s1.take(k as int),
        decreases ast.tasks.len() - k,
    {
        assert(a.tasks[k as int] == ast.tasks@[k as int]@);
        push_symbol(&mut out, ast.tasks[k].name.clone(), SymbolTag::Function, ast.tasks[k].span);
        assert(symbols_view(out@) =~= s1.take(k + 1));
        k += 1;
    }
    assert(s1.take(ast.tasks.len() as int) =~= s1);
    let ghost o1 = symbols_view(out@);
    let mut k: usize = 0;
    while k < ast.exports.len()
        invariant
            k <= ast.exports.len(),
            a == ast@,
            s2 == a.exports.map_values(|e: crate::ast::ExportModel| SymbolModel { name: e.key, kind: SymbolTag::Variable, span: e.span }),
            symbols_view(out@) == o1 + s2.take(k as int),
        decreases ast.exports.len() - k,
    {
        assert(a.exports[k as int] == ast.exports@[k as int]@);
        push_symbol(&mut out, ast.exports[k].key.clone(), SymbolTag::Variable, ast.exports[k].span);
        assert(symbols_view(out@) =~= o1 + s2.take(k + 1));
        k += 1;
    }
    assert(s2.take(ast.exports.len() as int) =~= s2);
    let ghost o2 = symbols_view(out@);
    let mut k: usize = 0;
    while k < ast.aliases.len()
        invariant
            k <= ast.aliases.len(),
            a == ast@,
            s3 == a.aliases.map_values(|x: crate::ast::AliasModel| SymbolModel { name: x.name, kind: SymbolTag::Function, span: x.span }),
            symbols_view(out@) == o2 + s3.take(k as int),
        decreases ast.aliases.len() - k,
    {
        assert(a.aliases[k as int] == ast.aliases@[k as int]@);
        push_symbol(&mut out, ast.aliases[k].name.clone(), SymbolTag::Function, ast.aliases[k].span);
        assert(symbols_view(out@) =~= o2 + s3.take(k + 1));
        k += 1;
    }
    assert(s3.take(ast.aliases.len() as int) =~= s3);
    let ghost o3 = symbols_view(out@);
    let mut k: usize = 0;
    while k < ast.includes.len()
        invariant
            k <= ast.includes.len(),
            a == ast@,
            s4 == a.includes.map_values(|x: crate::ast::PathModel| SymbolModel { name: x.path, kind: SymbolTag::Module, span: x.span }),
            symbols_view(out@) == o3 + s4.take(k as int),
        decreases ast.includes.len() - k,
    {
        assert(a.includes[k as int] == ast.includes@[k as int]@);
        push_symbol(&mut out, ast.includes[k].path.clone(), SymbolTag::Module, ast.includes[k].span);
        assert(symbols_view(out@) =~= o3 + s4.take(k + 1));
        k += 1;
    }
    assert(s4.take(ast.includes.len() as int) =~= s4);
    let ghost o4 = symbols_view(out@);
    let mut k: usize = 0;
    while k < ast.dotenv.len()
        invariant
            k <= ast.dotenv.len(),
            a == ast@,
            s5 == a.dotenv.map_values(|x: crate::ast::PathModel| SymbolModel { name: x.path, kind: SymbolTag::File, span: x.span }),
            symbols_view(out@) == o4 + s5.take(k as int),
        decreases ast.dotenv.len() - k,
    {
        assert(a.dotenv[k as int] == ast.dotenv@[k as int]@);
        push_symbol(&mut out, ast.dotenv[k].path.clone(), SymbolTag::File, ast.dotenv[k].span);
        assert(symbols_view(out@) =~= o4 + s5.take(k + 1));
        k += 1;
    }
    assert(s5.take(ast.dotenv.len() as int) =~= s5);
    assert(symbols_view(out@) =~= spec_document_symbols(a));
    out
}

// ---------------------------------------------------------------------------
// Positions the lookups take
/// Whether looking up the word at a position stays on character boundaries
/// (`word_lookup_ok`), as `find_word_at_position`, `hover_for` and `task_definition` require.
pub fn word_lookup_defined(text: &str, line: u32, character: u32) -> (r: bool)
    requires
        utf8_len(text@) <= usize::MAX,
    ensures
        r == word_lookup_ok(text@, line, character),
{
    let l = match line_of(text, line) {
        Some(l) => l,
        None => {
            return true;
        },
    };
    assert(l@.subrange(0, l.len() as int) =~= l@);
    let total = utf8_len_range(&l, 0, l.len());
    let col = character as usize;
    if col > total {
        return true;
    }
    let (k, acc) = chars_within_exec(&l, col);
    if acc != col {
        return false;
    }
    let q1 = rfind_class(&l, 0, k, CharClass::NotNameChar);
    let e = find_class(&l, k, l.len(), CharClass::NotNameChar);
    assert(l@.subrange(0, k as int) =~= l@.take(k as int));
    assert(l@.subrange(k as int, l.len() as int) =~= l@.skip(k as int));
    if q1 > 0 && crate::text::char_width(l[q1 - 1]) > 1 {
        proof {
            lemma_utf8_len_subrange(l@, 0, e as int);
            lemma_utf8_len_subrange(l@, 0, q1 - 1);
            lemma_utf8_len_subrange(l@, 0, k as int);
            crate::text::lemma_utf8_len_take_step(l@, q1 - 1);
            assert(l@.subrange(0, q1 - 1) == l@.take(q1 - 1));
        }
        let start_b = utf8_len_range(&l, 0, q1 - 1) + 1;
        let end_b = utf8_len_range(&l, 0, e);
        return start_b >= end_b;
    }
    true
}

/// Whether taking the text before the cursor stays on character boundaries
/// (`column_ok`), as `is_in_depends_context` and `completion_items` require.
pub fn column_defined(text: &str, line: u32, character: u32) -> (r: bool)
    requires
        utf8_len(text@) <= usize::MAX,
    ensures
        r == column_ok(text@, line, character),
{
    let l = match line_of(text, line) {
        Some(l) => l,
        None => {
            return true;
        },
    };
    assert(l@.subrange(0, l.len() as int) =~= l@);
    let total = utf8_len_range(&l, 0, l.len());
    let col = character as usize;
    if col >= total {
        return true;
    }
    let (k, acc) = chars_within_exec(&l, col);
    acc == col
}

} // verus!
