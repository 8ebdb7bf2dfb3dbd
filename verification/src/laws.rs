//! Properties of the parser and of the server's answers that hold for every document.
use vstd::prelude::*;

use crate::ast::{AstModel, DiagnosticModel, Span, TaskModel};
use crate::lines::lemma_lines_of_bounds;
use crate::model::{
    flush_annotations, header_items, initial_state, lemma_parse_step_advances,
    lemma_parse_task_next, parse_from, parse_step, spec_parse, spec_parse_alias,
    spec_parse_depends, spec_parse_dotenv, spec_parse_export,
    spec_parse_include, spec_parse_params, spec_parse_task, task_name, task_name_col, HeaderModel, ParseState, TaskOutcome,
    finish, chars_within, indent_bytes, dedent_amount, dedent_line_ok, dedent_ok, dedented_lines,
    indent_of, min_indent,
};
use crate::server::{
    doc_line, first_task_named, hover_text, lemma_first_task_named, on_char_boundary, spec_find_word,
    spec_completion, spec_document_symbols, spec_hover, spec_in_depends_context, spec_include_at,
    spec_task_definition, EntryKind, SymbolTag, word_end_byte, word_end_char, word_lookup_ok,
    word_start_byte, word_start_char,
};
use crate::text::{
    first_in, in_class, is_name_char, last_in, leading_ws, lemma_first_in, lemma_first_in_props,
    lemma_last_in, lemma_last_in_props, lemma_utf8_len_bounds, lemma_utf8_len_concat,
    lemma_utf8_len_subrange, lemma_utf8_len_take_step, lines_of, starts_with, trim, trim_start,
    unicode_alphanumeric, unicode_white_space, utf8_len, utf8_width, CharClass,
};

verus! {

/// A span that lies on one line of a document of `n` lines.
pub open spec fn on_one_line(s: Span, n: int) -> bool {
    s.start_line == s.end_line && s.start_line < n
}

/// A task as it is parsed from its header on line `i`: its name is the run
/// of name characters after `task `, not empty, and its name span covers it;
/// its spans start on line `i` (as a `u32`) and end on a line of the document.
pub open spec fn task_at_line(lines: Seq<Seq<char>>, t: TaskModel, i: int) -> bool {
    let raw = lines[i];
    &&& 0 <= i < lines.len()
    &&& starts_with(trim(raw), "task "@)
    &&& t.name == task_name(raw)
    &&& t.name.len() > 0
    &&& forall|j: int| 0 <= j < t.name.len() ==> is_name_char(#[trigger] t.name[j])
    &&& t.name_span == (Span {
        start_line: i as u32,
        start_col: task_name_col(raw) as u32,
        end_line: i as u32,
        end_col: ((task_name_col(raw) as u32) + (utf8_len(t.name) as u32)) as u32,
    })
    &&& t.span.start_line == t.name_span.start_line
    &&& t.span.end_line < lines.len()
}

/// A task as it is parsed from the line of its header (`task_at_line`).
pub open spec fn task_from_line(lines: Seq<Seq<char>>, t: TaskModel) -> bool {
    exists|i: int| #[trigger] task_at_line(lines, t, i)
}

/// A line index taken as a `u32` is no greater than the index.
pub proof fn lemma_line_u32_le(i: int)
    requires
        0 <= i <= u64::MAX,
    ensures
        (i as u32) <= i,
{
    let x = i as u64;
    assert((x as u32) <= x) by (bit_vector);
}

/// The items of a syntax tree as parsed from these lines: tasks come from
/// their header lines; exports, aliases, includes and dotenv lines have
/// non-empty names and paths and stand on one line of the document; every
/// diagnostic starts on a line of the document.
pub open spec fn items_well_formed(
    lines: Seq<Seq<char>>,
    tasks: Seq<TaskModel>,
    aliases: Seq<crate::ast::AliasModel>,
    exports: Seq<crate::ast::ExportModel>,
    includes: Seq<crate::ast::PathModel>,
    dotenv: Seq<crate::ast::PathModel>,
    diagnostics: Seq<DiagnosticModel>,
) -> bool {
    let n = lines.len() as int;
    &&& forall|k: int| 0 <= k < tasks.len() ==> task_from_line(lines, #[trigger] tasks[k])
    &&& forall|k: int|
        0 <= k < exports.len() ==> (#[trigger] exports[k]).key.len() > 0 && on_one_line(
            exports[k].span,
            n,
        )
    &&& forall|k: int|
        0 <= k < aliases.len() ==> (#[trigger] aliases[k]).name.len() > 0 && on_one_line(
            aliases[k].span,
            n,
        )
    &&& forall|k: int|
        0 <= k < includes.len() ==> (#[trigger] includes[k]).path.len() > 0 && on_one_line(
            includes[k].span,
            n,
        )
    &&& forall|k: int|
        0 <= k < dotenv.len() ==> (#[trigger] dotenv[k]).path.len() > 0 && on_one_line(
            dotenv[k].span,
            n,
        )
    &&& forall|k: int| 0 <= k < diagnostics.len() ==> (#[trigger] diagnostics[k]).span.start_line < n
}

/// What holds of every syntax tree that parsing a document of these lines yields
/// (`items_well_formed`).
pub open spec fn ast_well_formed(lines: Seq<Seq<char>>, a: AstModel) -> bool {
    items_well_formed(lines, a.tasks, a.aliases, a.exports, a.includes, a.dotenv, a.diagnostics)
}

/// `items_well_formed` for the state of the parser, whose pending annotations are on lines of the document.
pub open spec fn state_well_formed(lines: Seq<Seq<char>>, st: ParseState) -> bool {
    &&& items_well_formed(
        lines,
        st.tasks,
        st.aliases,
        st.exports,
        st.includes,
        st.dotenv,
        st.diagnostics,
    )
    &&& st.description matches Some((_, l)) ==> l < lines.len()
    &&& st.confirm matches Some((_, l)) ==> l < lines.len()
}

/// A malformed task header is reported on the task's line.
proof fn lemma_header_items_diag_line(cursor: Seq<char>, idx: u32, raw: Seq<char>, h: HeaderModel)
    ensures
        header_items(cursor, idx, raw, h) matches Err(d) ==> d.span.start_line == idx,
    decreases cursor.len(),
{
    if cursor.len() > 0 && cursor[0] != '{' {
        if cursor[0] == '[' {
            if let Ok((params, end)) = spec_parse_params(cursor, idx, raw) {
                lemma_first_in_props(cursor, CharClass::Is(']'));
                let next = crate::text::trim_start(cursor.skip(end + 1));
                lemma_first_in_props(cursor.skip(end + 1), CharClass::NotWhitespace);
                lemma_header_items_diag_line(next, idx, raw, HeaderModel { params, ..h });
            }
        } else if starts_with(cursor, "depends_parallel=["@) {
            if let Ok((deps, n)) = spec_parse_depends(cursor, "depends_parallel=["@, idx, raw) {
                lemma_first_in_props(cursor.skip("depends_parallel=["@.len() as int), CharClass::Is(']'));
                lemma_first_in_props(cursor.skip(n), CharClass::NotWhitespace);
                let next = crate::text::trim_start(cursor.skip(n));
                lemma_header_items_diag_line(next, idx, raw, HeaderModel { parallel_dependencies: deps, ..h });
            }
        } else if starts_with(cursor, "depends=["@) {
            if let Ok((deps, n)) = spec_parse_depends(cursor, "depends=["@, idx, raw) {
                lemma_first_in_props(cursor.skip("depends=["@.len() as int), CharClass::Is(']'));
                lemma_first_in_props(cursor.skip(n), CharClass::NotWhitespace);
                let next = crate::text::trim_start(cursor.skip(n));
                lemma_header_items_diag_line(next, idx, raw, HeaderModel { dependencies: deps, ..h });
            }
        }
    }
}

/// A task parsed from line `start` comes from that line; a malformed one is reported there.
pub proof fn lemma_parse_task_props(lines: Seq<Seq<char>>, start: int)
    requires
        0 <= start < lines.len() <= u64::MAX,
        starts_with(trim(lines[start]), "task "@),
    ensures
        match spec_parse_task(lines, start) {
            TaskOutcome::Parsed(t, next) => task_at_line(lines, t, start),
            TaskOutcome::Failed(d) => d.span.start_line == start as u32,
            TaskOutcome::Panics => true,
        },
{
    lemma_parse_task_next(lines, start);
    let raw = lines[start];
    let rest = crate::model::task_rest(raw);
    lemma_first_in_props(rest, CharClass::NotNameChar);
    let name = task_name(raw);
    assert forall|j: int| 0 <= j < name.len() implies is_name_char(#[trigger] name[j]) by {
        assert(name[j] == rest[j]);
    }
    let cursor = crate::text::trim_start(rest.skip(crate::text::first_in(rest, CharClass::NotNameChar)));
    lemma_header_items_diag_line(
        cursor,
        start as u32,
        raw,
        HeaderModel {
            params: Seq::empty(),
            dependencies: Seq::empty(),
            parallel_dependencies: Seq::empty(),
            open_brace: false,
        },
    );
    if let TaskOutcome::Parsed(t, next) = spec_parse_task(lines, start) {
        lemma_line_u32_le(next - 1);
    }
}

/// An export line yields a non-empty key on its line, or a diagnostic there.
proof fn lemma_export_props(raw: Seq<char>, idx: u32, n: int)
    requires
        idx < n,
    ensures
        match spec_parse_export(raw, idx) {
            Ok(e) => e.key.len() > 0 && on_one_line(e.span, n),
            Err(d) => d.span.start_line == idx,
        },
{
}

/// An alias line yields a non-empty name on its line, or a diagnostic there.
proof fn lemma_alias_props(raw: Seq<char>, idx: u32, n: int)
    requires
        idx < n,
    ensures
        match spec_parse_alias(raw, idx) {
            Ok(e) => e.name.len() > 0 && on_one_line(e.span, n),
            Err(d) => d.span.start_line == idx,
        },
{
}

/// An include or dotenv line yields a non-empty path on its line, or a diagnostic there.
proof fn lemma_path_props(raw: Seq<char>, idx: u32, n: int)
    requires
        idx < n,
    ensures
        match spec_parse_include(raw, idx) {
            Ok(e) => e.path.len() > 0 && on_one_line(e.span, n),
            Err(d) => d.span.start_line == idx,
        },
        match spec_parse_dotenv(raw, idx) {
            Ok(e) => e.path.len() > 0 && on_one_line(e.span, n),
            Err(d) => d.span.start_line == idx,
        },
{
}

/// Each step of the parser keeps the state well formed.
pub proof fn lemma_parse_step_well_formed(lines: Seq<Seq<char>>, i: int, st: ParseState)
    requires
        0 <= i < lines.len() <= u64::MAX,
        state_well_formed(lines, st),
    ensures
        parse_step(lines, i, st) matches Some((_, s)) ==> state_well_formed(lines, s),
{
    let raw = lines[i];
    let line = trim(raw);
    let idx = i as u32;
    let n = lines.len() as int;
    lemma_line_u32_le(i);
    assert(idx < n);
    if line.len() == 0 || line[0] == '#' {
    } else if starts_with(line, "@description "@) {
    } else if starts_with(line, "@confirm"@) {
    } else if starts_with(line, "task "@) && !starts_with(line, "export "@) && !starts_with(
        line,
        "alias "@,
    ) && !starts_with(line, "include "@) && !starts_with(line, "dotenv "@) {
        lemma_parse_task_props(lines, i);
        match spec_parse_task(lines, i) {
            TaskOutcome::Parsed(t, next) => {
                if let Some((_, s)) = parse_step(lines, i, st) {
                    let t2 = s.tasks.last();
                    assert(s.tasks == st.tasks.push(t2));
                    assert(task_at_line(lines, t2, i));
                    assert(task_from_line(lines, t2));
                    assert forall|k: int| 0 <= k < s.tasks.len() implies task_from_line(
                        lines,
                        #[trigger] s.tasks[k],
                    ) by {
                        if k < st.tasks.len() {
                            assert(s.tasks[k] == st.tasks[k]);
                        } else {
                            assert(s.tasks[k] == t2);
                        }
                    }
                }
            },
            TaskOutcome::Failed(d) => {
                if let Some((_, s)) = parse_step(lines, i, st) {
                    assert forall|k: int| 0 <= k < s.diagnostics.len() implies (
                    #[trigger] s.diagnostics[k]).span.start_line < n by {
                        if k < st.diagnostics.len() {
                            assert(s.diagnostics[k] == st.diagnostics[k]);
                        }
                    }
                }
            },
            TaskOutcome::Panics => {},
        }
    } else {
        lemma_export_props(raw, idx, n);
        lemma_alias_props(raw, idx, n);
        lemma_path_props(raw, idx, n);
        let s0 = flush_annotations(st, idx);
        assert(state_well_formed(lines, s0)) by {
            if st.description is Some || st.confirm is Some {
                assert forall|k: int| 0 <= k < s0.diagnostics.len() implies (
                #[trigger] s0.diagnostics[k]).span.start_line < n by {
                    if k < st.diagnostics.len() {
                        assert(s0.diagnostics[k] == st.diagnostics[k]);
                    }
                }
            }
        }
        if let Some((_, s)) = parse_step(lines, i, st) {
            assert forall|k: int| 0 <= k < s.diagnostics.len() implies (
            #[trigger] s.diagnostics[k]).span.start_line < n by {
                if k < s0.diagnostics.len() && starts_with(line, "export "@) || starts_with(
                    line,
                    "alias "@,
                ) || starts_with(line, "include "@) || starts_with(line, "dotenv "@) {
                    if k < s0.diagnostics.len() {
                        assert(s.diagnostics[k] == s0.diagnostics[k]);
                    }
                } else if k < st.diagnostics.len() {
                    assert(s.diagnostics[k] == st.diagnostics[k]);
                }
            }
            assert forall|k: int| 0 <= k < s.exports.len() implies (#[trigger] s.exports[k]).key.len()
                > 0 && on_one_line(s.exports[k].span, n) by {
                if k < s0.exports.len() {
                    assert(s.exports[k] == s0.exports[k]);
                } else {
                    assert(s.exports[k] == s.exports.last());
                }
            }
            assert forall|k: int| 0 <= k < s.aliases.len() implies (#[trigger] s.aliases[k]).name.len()
                > 0 && on_one_line(s.aliases[k].span, n) by {
                if k < s0.aliases.len() {
                    assert(s.aliases[k] == s0.aliases[k]);
                } else {
                    assert(s.aliases[k] == s.aliases.last());
                }
            }
            assert forall|k: int| 0 <= k < s.includes.len() implies (
            #[trigger] s.includes[k]).path.len() > 0 && on_one_line(s.includes[k].span, n) by {
                if k < s0.includes.len() {
                    assert(s.includes[k] == s0.includes[k]);
                } else {
                    assert(s.includes[k] == s.includes.last());
                }
            }
            assert forall|k: int| 0 <= k < s.dotenv.len() implies (#[trigger] s.dotenv[k]).path.len()
                > 0 && on_one_line(s.dotenv[k].span, n) by {
                if k < s0.dotenv.len() {
                    assert(s.dotenv[k] == s0.dotenv[k]);
                } else {
                    assert(s.dotenv[k] == s.dotenv.last());
                }
            }
        }
    }
}

/// Finishing a well-formed state gives a well-formed syntax tree.
pub proof fn lemma_finish_well_formed(lines: Seq<Seq<char>>, st: ParseState)
    requires
        state_well_formed(lines, st),
    ensures
        ast_well_formed(lines, finish(st)),
{
    let a = finish(st);
    let n = lines.len() as int;
    let d1 = match st.description {
        Some((_, l)) => st.diagnostics.push(
            crate::model::warning_at(
                Span { start_line: l, start_col: 0, end_line: l, end_col: 0 },
                "@description not followed by a task definition"@,
            ),
        ),
        None => st.diagnostics,
    };
    assert forall|k: int| 0 <= k < d1.len() implies (#[trigger] d1[k]).span.start_line < n by {
        if k < st.diagnostics.len() {
            assert(d1[k] == st.diagnostics[k]);
        }
    }
    let d2 = match st.confirm {
        Some((_, l)) => d1.push(
            crate::model::warning_at(
                Span { start_line: l, start_col: 0, end_line: l, end_col: 0 },
                "@confirm not followed by a task definition"@,
            ),
        ),
        None => d1,
    };
    assert forall|k: int| 0 <= k < d2.len() implies (#[trigger] d2[k]).span.start_line < n by {
        if k < d1.len() {
            assert(d2[k] == d1[k]);
        }
    }
    assert(a.diagnostics == d2);
}

/// Parsing from any line in a well-formed state yields a well-formed syntax tree.
pub proof fn lemma_parse_from_well_formed(lines: Seq<Seq<char>>, i: int, st: ParseState)
    requires
        0 <= i,
        lines.len() <= u64::MAX,
        state_well_formed(lines, st),
    ensures
        parse_from(lines, i, st) matches Some(a) ==> ast_well_formed(lines, a),
    decreases lines.len() - i,
{
    if i >= lines.len() {
        lemma_finish_well_formed(lines, st);
    } else {
        lemma_parse_step_advances(lines, i, st);
        lemma_parse_step_well_formed(lines, i, st);
        if let Some((n, s)) = parse_step(lines, i, st) {
            lemma_parse_from_well_formed(lines, n, s);
        }
    }
}

/// Every syntax tree that the parser yields is well formed: each task comes
/// from its header line, with a non-empty name of name characters and a name
/// span that covers it; exports, aliases, includes and dotenv lines have
/// non-empty names and paths and stand on one line; every diagnostic starts on
/// a line of the document.
pub proof fn law_parse_well_formed(input: Seq<char>)
    requires
        utf8_len(input) <= usize::MAX,
    ensures
        spec_parse(input) matches Some(a) ==> ast_well_formed(lines_of(input), a),
{
    lemma_lines_of_bounds(input);
    lemma_utf8_len_bounds(input);
    let lines = lines_of(input);
    let st = initial_state();
    assert(state_well_formed(lines, st));
    lemma_parse_from_well_formed(lines, 0, st);
}

/// The characters within the first bytes of a prefix are the prefix.
pub proof fn lemma_chars_within_prefix(l: Seq<char>, j: int)
    requires
        0 <= j <= l.len(),
    ensures
        chars_within(l, utf8_len(l.take(j)) as int) == j,
    decreases j,
{
    if j > 0 {
        let l1 = l.drop_first();
        assert(l.take(j) =~= seq![l[0]] + l1.take(j - 1));
        lemma_utf8_len_concat(seq![l[0]], l1.take(j - 1));
        assert(utf8_len(seq![l[0]]) == utf8_width(l[0])) by {
            assert(seq![l[0]].drop_last() =~= Seq::<char>::empty());
            reveal_with_fuel(utf8_len, 2);
        }
        lemma_chars_within_prefix(l1, j - 1);
    }
}

/// Go to definition and hover at the name of a task: at the column where the
/// name of a parsed task starts, looking up the word is defined, the word is
/// the task's name, and the definition and hover are those of the first task
/// so named (the task itself when no earlier task has its name). Positions
/// are `u32` lines and byte columns, so the line of the task's header must be
/// one that a position can reach: its number and its byte length fit a `u32`.
/// This rests on a fact of Unicode that the standard library's tables hold:
/// no whitespace character is alphanumeric.
pub proof fn law_definition_at_task_name(input: Seq<char>, k: int)
    requires
        utf8_len(input) <= usize::MAX,
        spec_parse(input) is Some,
        0 <= k < spec_parse(input).unwrap().tasks.len(),
        forall|i: int|
            #[trigger] task_at_line(lines_of(input), spec_parse(input).unwrap().tasks[k], i) ==> i
                <= u32::MAX && utf8_len(lines_of(input)[i]) <= u32::MAX,
        forall|c: char| unicode_white_space(c) ==> !unicode_alphanumeric(c),
    ensures
        ({
            let a = spec_parse(input).unwrap();
            let t = a.tasks[k];
            let line = t.name_span.start_line;
            let col = t.name_span.start_col;
            &&& word_lookup_ok(input, line, col)
            &&& spec_find_word(input, line, col) == Some(t.name)
            &&& first_task_named(a.tasks, t.name) matches Some(j) && j <= k
                && spec_task_definition(input, a.tasks, line, col) == Some(a.tasks[j].name_span)
                && spec_hover(input, a.tasks, line, col) == Some(
                (hover_text(a.tasks[j]), a.tasks[j].name_span),
            )
        }),
{
    let a = spec_parse(input).unwrap();
    let t = a.tasks[k];
    law_parse_well_formed(input);
    let lines = lines_of(input);
    assert(task_from_line(lines, t));
    let i = choose|i: int| task_at_line(lines, t, i);
    assert(t.name_span.start_line as int == i);
    let raw = lines[i];
    let line = t.name_span.start_line;
    let col = t.name_span.start_col;
    assert(doc_line(input, line) == Some(raw));
    // The trimmed line is raw[a0..b0].
    let a0 = leading_ws(raw);
    lemma_first_in_props(raw, CharClass::NotWhitespace);
    let ts = trim_start(raw);
    let e = last_in(ts, CharClass::NotWhitespace);
    lemma_last_in_props(ts, CharClass::NotWhitespace);
    let b0 = a0 + e + 1;
    assert(trim(raw) =~= raw.subrange(a0, b0));
    // It starts with `task `.
    reveal_strlit("task ");
    let tr = trim(raw);
    assert(tr.take(5) == "task "@);
    assert forall|j: int| 0 <= j < 5 implies raw[a0 + j] == "task "@[j] by {
        assert(raw[a0 + j] == tr.take(5)[j]);
    }
    let kk = a0 + 5;
    // Byte columns: the five characters of `task ` are one byte each.
    assert("task "@ =~= seq!['t', 'a', 's', 'k', ' ']);
    assert forall|j: int| 0 <= j < 5 implies utf8_width(#[trigger] raw[a0 + j]) == 1 by {
        assert(raw[a0 + j] == "task "@[j]);
    }
    lemma_utf8_len_take_step(raw, a0);
    lemma_utf8_len_take_step(raw, a0 + 1);
    lemma_utf8_len_take_step(raw, a0 + 2);
    lemma_utf8_len_take_step(raw, a0 + 3);
    lemma_utf8_len_take_step(raw, a0 + 4);
    assert(utf8_len(raw.take(kk)) == indent_bytes(raw) + 5);
    lemma_utf8_len_subrange(raw, 0, kk);
    assert(utf8_len(raw) <= u32::MAX);
    assert(col as int == utf8_len(raw.take(kk)));
    lemma_chars_within_prefix(raw, kk);
    assert(chars_within(raw, col as int) == kk);
    // The word starts after the space of `task `.
    assert(raw[kk - 1] == ' ');
    assert(!is_name_char(' '));
    assert forall|j: int| kk - 1 < j < raw.take(kk).len() implies !in_class(
        #[trigger] raw.take(kk)[j],
        CharClass::NotNameChar,
    ) by {}
    lemma_last_in(raw.take(kk), CharClass::NotNameChar, kk - 1);
    assert(word_start_char(raw, kk) == kk - 1);
    // The word ends where the name ends.
    let rest = tr.skip(5);
    assert(rest =~= raw.subrange(kk, b0));
    let nl = first_in(rest, CharClass::NotNameChar);
    lemma_first_in_props(rest, CharClass::NotNameChar);
    assert(t.name =~= raw.subrange(kk, kk + nl));
    let after = raw.skip(kk);
    assert forall|j: int| 0 <= j < nl implies !in_class(#[trigger] after[j], CharClass::NotNameChar) by {
        assert(after[j] == rest[j]);
    }
    if nl < after.len() {
        if kk + nl < b0 {
            assert(after[nl] == rest[nl]);
        } else {
            assert(kk + nl == b0);
            assert(raw[b0] == ts[e + 1]);
            assert(!in_class(ts[e + 1], CharClass::NotWhitespace));
        }
    }
    lemma_first_in(after, CharClass::NotNameChar, nl);
    assert(word_end_char(raw, kk) == kk + nl);
    // Byte bounds of the word.
    lemma_utf8_len_take_step(raw, kk - 1);
    lemma_utf8_len_subrange(raw, kk, kk + nl);
    lemma_utf8_len_subrange(raw, 0, kk + nl);
    assert(raw.take(kk + nl) =~= raw.take(kk) + raw.subrange(kk, kk + nl));
    lemma_utf8_len_concat(raw.take(kk), raw.subrange(kk, kk + nl));
    lemma_utf8_len_bounds(t.name);
    assert(word_start_byte(raw, kk) == col);
    assert(word_end_byte(raw, kk) == col + utf8_len(t.name));
    assert(spec_find_word(input, line, col) == Some(t.name));
    assert(on_char_boundary(raw, col as int));
    assert(word_lookup_ok(input, line, col));
    // The first task with the name.
    lemma_first_task_named(a.tasks, t.name);
}

/// `spec_include_at` finds an include that stands alone on the line.
proof fn lemma_include_at_found(includes: Seq<crate::ast::PathModel>, k: int, line: u32)
    requires
        0 <= k < includes.len(),
        includes[k].span.start_line == line,
        includes[k].span.end_line == line,
    ensures
        spec_include_at(includes, line) is Some,
    decreases k,
{
    if !(includes[0].span.start_line == line && includes[0].span.end_line == line) {
        assert(includes.drop_first()[k - 1] == includes[k]);
        lemma_include_at_found(includes.drop_first(), k - 1, line);
    }
}

/// Go to definition on an include line: for every include that the parser
/// yields, looking up the includes on its line finds a path.
pub proof fn law_include_found_on_its_line(input: Seq<char>, k: int)
    requires
        utf8_len(input) <= usize::MAX,
        spec_parse(input) is Some,
        0 <= k < spec_parse(input).unwrap().includes.len(),
    ensures
        spec_include_at(
            spec_parse(input).unwrap().includes,
            spec_parse(input).unwrap().includes[k].span.start_line,
        ) is Some,
{
    let a = spec_parse(input).unwrap();
    law_parse_well_formed(input);
    assert(on_one_line(a.includes[k].span, lines_of(input).len() as int));
    lemma_include_at_found(a.includes, k, a.includes[k].span.start_line);
}

/// The least indentation is that of a non-blank line, and no non-blank line has less.
proof fn lemma_min_indent(ls: Seq<Seq<char>>)
    ensures
        match min_indent(ls) {
            Some(m) => (exists|j: int|
                0 <= j < ls.len() && trim(#[trigger] ls[j]).len() > 0 && indent_of(ls[j]) == m)
                && forall|j: int| 0 <= j < ls.len() && trim(#[trigger] ls[j]).len() > 0 ==> m <= indent_of(ls[j]),
            None => forall|j: int| 0 <= j < ls.len() ==> trim(#[trigger] ls[j]).len() == 0,
        },
    decreases ls.len(),
{
    if ls.len() > 0 {
        let init = ls.drop_last();
        lemma_min_indent(init);
        let n = ls.len() - 1;
        assert forall|j: int| 0 <= j < n implies #[trigger] ls[j] == init[j] by {}
        let l = ls[n];
        if trim(l).len() == 0 {
            assert(min_indent(ls) == min_indent(init));
            match min_indent(init) {
                Some(m0) => {
                    let j0 = choose|j: int|
                        0 <= j < init.len() && trim(#[trigger] init[j]).len() > 0 && indent_of(init[j]) == m0;
                    assert(ls[j0] == init[j0]);
                    assert forall|j: int| 0 <= j < ls.len() && trim(#[trigger] ls[j]).len() > 0 implies m0
                        <= indent_of(ls[j]) by {
                        assert(j < n);
                        assert(ls[j] == init[j]);
                    }
                },
                None => {
                    assert forall|j: int| 0 <= j < ls.len() implies trim(#[trigger] ls[j]).len() == 0 by {
                        if j < n {
                            assert(ls[j] == init[j]);
                        }
                    }
                },
            }
        } else {
            match min_indent(init) {
                Some(m0) => {
                    let m = min_indent(ls).unwrap();
                    let j0 = choose|j: int|
                        0 <= j < init.len() && trim(#[trigger] init[j]).len() > 0 && indent_of(init[j]) == m0;
                    assert(ls[j0] == init[j0]);
                    if indent_of(l) < m0 {
                        assert(trim(ls[n]).len() > 0 && indent_of(ls[n]) == m);
                    } else {
                        assert(trim(ls[j0]).len() > 0 && indent_of(ls[j0]) == m);
                    }
                    assert forall|j: int| 0 <= j < ls.len() && trim(#[trigger] ls[j]).len() > 0 implies m
                        <= indent_of(ls[j]) by {
                        if j < n {
                            assert(ls[j] == init[j]);
                        }
                    }
                },
                None => {
                    let m = min_indent(ls).unwrap();
                    assert(trim(ls[n]).len() > 0 && indent_of(ls[n]) == m);
                    assert forall|j: int| 0 <= j < ls.len() && trim(#[trigger] ls[j]).len() > 0 implies m
                        <= indent_of(ls[j]) by {
                        if j < n {
                            assert(ls[j] == init[j]);
                        }
                    }
                },
            }
        }
    }
}

/// A line that is not blank has a character that is not whitespace before its end.
proof fn lemma_not_blank(l: Seq<char>)
    requires
        trim(l).len() > 0,
    ensures
        leading_ws(l) < l.len(),
{
    lemma_first_in_props(l, CharClass::NotWhitespace);
    if leading_ws(l) >= l.len() {
        assert(trim_start(l).len() == 0);
        lemma_last_in_props(trim_start(l), CharClass::NotWhitespace);
    }
}

/// A task body loses its common indentation: dedenting keeps every line,
/// removes the same number of bytes (no more than any indentation) from the
/// front of every non-blank line, and leaves a non-blank line that starts
/// with a character that is not whitespace.
pub proof fn law_dedent_removes_common_indent(ls: Seq<Seq<char>>)
    requires
        dedent_ok(ls),
        exists|j: int| 0 <= j < ls.len() && trim(#[trigger] ls[j]).len() > 0,
    ensures
        dedented_lines(ls).len() == ls.len(),
        forall|j: int|
            0 <= j < ls.len() && trim(#[trigger] ls[j]).len() > 0 ==> dedent_amount(ls) <= indent_of(
                ls[j],
            ) && utf8_len(dedented_lines(ls)[j]) == utf8_len(ls[j]) - dedent_amount(ls),
        exists|j: int|
            0 <= j < ls.len() && trim(#[trigger] ls[j]).len() > 0 && leading_ws(dedented_lines(ls)[j])
                == 0,
{
    lemma_min_indent(ls);
    let m = dedent_amount(ls);
    let d = dedented_lines(ls);
    assert forall|j: int| 0 <= j < ls.len() && trim(#[trigger] ls[j]).len() > 0 implies m <= indent_of(
        ls[j],
    ) && utf8_len(d[j]) == utf8_len(ls[j]) - m by {
        let l = ls[j];
        lemma_not_blank(l);
        lemma_first_in_props(l, CharClass::NotWhitespace);
        lemma_utf8_len_subrange(l, 0, leading_ws(l));
        assert(dedent_line_ok(ls[j], m));
        let c = chars_within(l, m);
        lemma_chars_within_bound(l, m);
        lemma_utf8_len_subrange(l, 0, c);
        assert(l.take(c) + l.skip(c) =~= l);
        lemma_utf8_len_concat(l.take(c), l.skip(c));
    }
    let j0 = choose|j: int| 0 <= j < ls.len() && trim(#[trigger] ls[j]).len() > 0 && indent_of(ls[j]) == m;
    let l = ls[j0];
    lemma_not_blank(l);
    lemma_first_in_props(l, CharClass::NotWhitespace);
    lemma_utf8_len_subrange(l, 0, leading_ws(l));
    lemma_chars_within_prefix(l, leading_ws(l));
    assert(d[j0] == l.skip(leading_ws(l)));
    assert(d[j0][0] == l[leading_ws(l)]);
    lemma_first_in(d[j0], CharClass::NotWhitespace, 0);
}

/// `chars_within` counts at most the characters of the line.
proof fn lemma_chars_within_bound(l: Seq<char>, m: int)
    ensures
        0 <= chars_within(l, m) <= l.len(),
    decreases l.len(),
{
    if m > 0 && l.len() > 0 {
        lemma_chars_within_bound(l.drop_first(), m - utf8_width(l[0]));
    }
}

/// Completion inside a dependency list: where the cursor is inside an open
/// `depends=[` or `depends_parallel=[` list, the completions are the names of
/// the parsed tasks, in order, each with its description.
pub proof fn law_completion_in_depends_lists_task_names(text: Seq<char>, line: u32, character: u32)
    requires
        spec_parse(text) is Some,
        spec_in_depends_context(text, line, character),
    ensures
        ({
            let tasks = spec_parse(text).unwrap().tasks;
            let items = spec_completion(text, tasks, line, character);
            &&& items.len() == tasks.len()
            &&& forall|k: int|
                0 <= k < tasks.len() ==> (#[trigger] items[k]).label == tasks[k].name
                    && items[k].detail == tasks[k].description && items[k].kind
                    == EntryKind::Function
        }),
{
}

/// The outline of a document lists every declaration: one symbol per task,
/// export, alias, include and dotenv line, in that order, each with its name
/// and span.
pub proof fn law_outline_lists_every_declaration(a: AstModel)
    ensures
        ({
            let s = spec_document_symbols(a);
            let n1 = a.tasks.len() as int;
            let n2 = n1 + a.exports.len();
            let n3 = n2 + a.aliases.len();
            let n4 = n3 + a.includes.len();
            &&& s.len() == n4 + a.dotenv.len()
            &&& forall|k: int| 0 <= k < n1 ==> (#[trigger] s[k]).name == a.tasks[k].name
                && s[k].span == a.tasks[k].span && s[k].kind == SymbolTag::Function
            &&& forall|k: int| n1 <= k < n2 ==> (#[trigger] s[k]).name == a.exports[k - n1].key
                && s[k].span == a.exports[k - n1].span && s[k].kind == SymbolTag::Variable
            &&& forall|k: int| n2 <= k < n3 ==> (#[trigger] s[k]).name == a.aliases[k - n2].name
                && s[k].span == a.aliases[k - n2].span && s[k].kind == SymbolTag::Function
            &&& forall|k: int| n3 <= k < n4 ==> (#[trigger] s[k]).name == a.includes[k - n3].path
                && s[k].span == a.includes[k - n3].span && s[k].kind == SymbolTag::Module
            &&& forall|k: int|
                n4 <= k < n4 + a.dotenv.len() ==> (#[trigger] s[k]).name == a.dotenv[k - n4].path
                    && s[k].span == a.dotenv[k - n4].span && s[k].kind == SymbolTag::File
        }),
{
}

} // verus!
