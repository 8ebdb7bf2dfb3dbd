//! A newline in front of a document moves everything that the parser finds
//! down one line and changes nothing else.
use vstd::prelude::*;

use crate::ast::{
    AliasModel, AstModel, DependencyModel, DiagnosticModel, ExportModel, ParamModel, PathModel,
    Span, TaskModel,
};
use crate::model::{
    body_overflows, body_scan, brace_delta, dep_piece, deps_from, find_open_brace, finish,
    flush_annotations, header_items, header_panics, initial_state, lemma_parse_step_advances,
    param_at, params_from, lemma_param_at_advances, depends_base, parse_from, parse_step, spec_parse, spec_parse_alias,
    spec_parse_depends, spec_parse_dotenv, spec_parse_export, spec_parse_include,
    spec_parse_params, spec_parse_task, spec_skip_to_next_toplevel, spec_task_head,
    task_header_text, BraceSearch, HeaderModel, ParseState, TaskOutcome,
};
use crate::lines::lemma_lines_of_bounds;
use crate::text::{
    first_in, lemma_first_in_props, lemma_utf8_len_bounds, lines_of, starts_with, trim,
    trim_start, utf8_len, CharClass,
};

verus! {

/// The number of the next line; line numbers are `u32`s and wrap.
pub open spec fn next_line(l: u32) -> u32 {
    (l + 1) as u32
}

/// A span one line further down.
pub open spec fn span_down(s: Span) -> Span {
    Span { start_line: next_line(s.start_line), end_line: next_line(s.end_line), ..s }
}

/// A diagnostic one line further down.
pub open spec fn diag_down(d: DiagnosticModel) -> DiagnosticModel {
    DiagnosticModel { span: span_down(d.span), ..d }
}

/// A parameter one line further down.
pub open spec fn param_down(p: ParamModel) -> ParamModel {
    ParamModel { span: span_down(p.span), ..p }
}

/// A dependency one line further down.
pub open spec fn dep_down(d: DependencyModel) -> DependencyModel {
    DependencyModel { span: span_down(d.span), ..d }
}

/// Parameters one line further down.
pub open spec fn params_down(ps: Seq<ParamModel>) -> Seq<ParamModel> {
    ps.map_values(|p: ParamModel| param_down(p))
}

/// Dependencies one line further down.
pub open spec fn deps_down(ds: Seq<DependencyModel>) -> Seq<DependencyModel> {
    ds.map_values(|d: DependencyModel| dep_down(d))
}

/// A task one line further down: its spans and those of its parameters and dependencies.
pub open spec fn task_down(t: TaskModel) -> TaskModel {
    TaskModel {
        name_span: span_down(t.name_span),
        params: params_down(t.params),
        dependencies: deps_down(t.dependencies),
        parallel_dependencies: deps_down(t.parallel_dependencies),
        span: span_down(t.span),
        ..t
    }
}

/// Tasks one line further down.
pub open spec fn tasks_down(ts: Seq<TaskModel>) -> Seq<TaskModel> {
    ts.map_values(|t: TaskModel| task_down(t))
}

/// Aliases one line further down.
pub open spec fn aliases_down(xs: Seq<AliasModel>) -> Seq<AliasModel> {
    xs.map_values(|x: AliasModel| AliasModel { span: span_down(x.span), ..x })
}

/// Exports one line further down.
pub open spec fn exports_down(xs: Seq<ExportModel>) -> Seq<ExportModel> {
    xs.map_values(|x: ExportModel| ExportModel { span: span_down(x.span), ..x })
}

/// Include or dotenv lines one line further down.
pub open spec fn paths_down(xs: Seq<PathModel>) -> Seq<PathModel> {
    xs.map_values(|x: PathModel| PathModel { span: span_down(x.span), ..x })
}

/// Diagnostics one line further down.
pub open spec fn diags_down(ds: Seq<DiagnosticModel>) -> Seq<DiagnosticModel> {
    ds.map_values(|d: DiagnosticModel| diag_down(d))
}

/// A syntax tree one line further down: every span moves down one line.
pub open spec fn ast_down(a: AstModel) -> AstModel {
    AstModel {
        tasks: tasks_down(a.tasks),
        aliases: aliases_down(a.aliases),
        exports: exports_down(a.exports),
        includes: paths_down(a.includes),
        dotenv: paths_down(a.dotenv),
        diagnostics: diags_down(a.diagnostics),
    }
}

/// What a parse gives, one line further down.
pub open spec fn parsed_down(r: Option<AstModel>) -> Option<AstModel> {
    match r {
        Some(a) => Some(ast_down(a)),
        None => None,
    }
}

/// A pending annotation one line further down.
pub open spec fn pending_down(p: Option<(Seq<char>, u32)>) -> Option<(Seq<char>, u32)> {
    match p {
        Some((text, l)) => Some((text, next_line(l))),
        None => None,
    }
}

/// The state of the parser one line further down.
pub open spec fn state_down(st: ParseState) -> ParseState {
    ParseState {
        tasks: tasks_down(st.tasks),
        aliases: aliases_down(st.aliases),
        exports: exports_down(st.exports),
        includes: paths_down(st.includes),
        dotenv: paths_down(st.dotenv),
        diagnostics: diags_down(st.diagnostics),
        description: pending_down(st.description),
        confirm: pending_down(st.confirm),
    }
}

/// What a task header declares, one line further down.
pub open spec fn header_down(h: HeaderModel) -> HeaderModel {
    HeaderModel {
        params: params_down(h.params),
        dependencies: deps_down(h.dependencies),
        parallel_dependencies: deps_down(h.parallel_dependencies),
        open_brace: h.open_brace,
    }
}

/// The result of reading a task header, one line further down.
pub open spec fn header_result_down(r: Result<HeaderModel, DiagnosticModel>) -> Result<
    HeaderModel,
    DiagnosticModel,
> {
    match r {
        Ok(h) => Ok(header_down(h)),
        Err(d) => Err(diag_down(d)),
    }
}

/// The lines of a document with a newline in front.
pub open spec fn lines_down(ls: Seq<Seq<char>>) -> Seq<Seq<char>> {
    seq![Seq::<char>::empty()] + ls
}

/// Numbering line `i + 1` as a `u32` gives the next line of line `i`.
proof fn lemma_next_line(i: int)
    requires
        0 <= i < u64::MAX,
    ensures
        next_line(i as u32) == (i + 1) as u32,
{
    let x = i as u64;
    assert((((x as u32) + 1) as u32) == ((x + 1) as u32)) by (bit_vector)
        requires
            x < 0xffff_ffff_ffff_ffffu64,
    ;
}

/// A newline in front of a text adds an empty first line.
proof fn lemma_lines_of_newline(s: Seq<char>)
    ensures
        lines_of(seq!['\n'] + s) == lines_down(lines_of(s)),
{
    let t = seq!['\n'] + s;
    lemma_first_in_props(t, CharClass::Is('\n'));
    assert(first_in(t, CharClass::Is('\n')) == 0);
    assert(t.skip(1) =~= s);
    assert(t.take(0) =~= Seq::<char>::empty());
    assert(crate::text::strip_cr(Seq::<char>::empty()) =~= Seq::<char>::empty());
}

/// Parameters read with the next line's number are those read with this one, moved down.
proof fn lemma_params_from_down(inner: Seq<char>, k: int, base: int, idx: u32)
    ensures
        params_from(inner, k, base, next_line(idx)) == params_down(params_from(inner, k, base, idx)),
    decreases inner.len() - k,
{
    if 0 <= k < inner.len() {
        lemma_param_at_advances(inner, k, base, idx);
        match param_at(inner, k, base, idx) {
            None => {
                assert(params_down(Seq::empty()) =~= Seq::<ParamModel>::empty());
            },
            Some((p, after)) => {
                assert(param_at(inner, k, base, next_line(idx)) == Some((param_down(p), after)));
                lemma_params_from_down(inner, after, base, idx);
                let rest = params_from(inner, after, base, idx);
                assert(params_down(seq![p] + rest) =~= seq![param_down(p)] + params_down(rest));
            },
        }
    } else {
        assert(params_down(Seq::empty()) =~= Seq::<ParamModel>::empty());
    }
}

/// Dependencies read with the next line's number are those read with this one, moved down.
proof fn lemma_deps_from_down(inner: Seq<char>, o: int, base: int, idx: u32)
    ensures
        deps_from(inner, o, base, next_line(idx)) == deps_down(deps_from(inner, o, base, idx)),
    decreases inner.len() - o,
{
    if 0 <= o <= inner.len() {
        lemma_first_in_props(inner.skip(o), CharClass::Is(','));
        let (d, e) = dep_piece(inner, o, base, idx);
        let here = match d {
            Some(x) => seq![x],
            None => Seq::<DependencyModel>::empty(),
        };
        let here2 = match dep_piece(inner, o, base, next_line(idx)).0 {
            Some(x) => seq![x],
            None => Seq::<DependencyModel>::empty(),
        };
        assert(dep_piece(inner, o, base, next_line(idx)).1 == e);
        assert(here2 =~= deps_down(here));
        if e < inner.len() {
            lemma_deps_from_down(inner, e + 1, base, idx);
            let rest = deps_from(inner, e + 1, base, idx);
            assert(deps_down(here + rest) =~= deps_down(here) + deps_down(rest));
        }
    } else {
        assert(deps_down(Seq::empty()) =~= Seq::<DependencyModel>::empty());
    }
}

/// A task header read with the next line's number is the one read with this one, moved down.
proof fn lemma_header_down(cursor: Seq<char>, idx: u32, raw: Seq<char>, h: HeaderModel)
    ensures
        header_items(cursor, next_line(idx), raw, header_down(h)) == header_result_down(
            header_items(cursor, idx, raw, h),
        ),
        header_panics(cursor, next_line(idx), raw) == header_panics(cursor, idx, raw),
    decreases cursor.len(),
{
    let idx2 = next_line(idx);
    if cursor.len() == 0 || cursor[0] == '{' {
    } else if cursor[0] == '[' {
        let end = first_in(cursor, CharClass::Is(']'));
        assert forall|base: int| #[trigger]
            params_from(cursor.subrange(1, end), 0, base, idx2) == params_down(
                params_from(cursor.subrange(1, end), 0, base, idx),
            ) by {
            lemma_params_from_down(cursor.subrange(1, end), 0, base, idx);
        }
        match spec_parse_params(cursor, idx, raw) {
            Ok((params, e)) => {
                lemma_first_in_props(cursor, CharClass::Is(']'));
                lemma_first_in_props(cursor.skip(e + 1), CharClass::NotWhitespace);
                assert(spec_parse_params(cursor, idx2, raw) == Ok::<(Seq<ParamModel>, int), DiagnosticModel>((params_down(params), e)));
                let next = trim_start(cursor.skip(e + 1));
                lemma_header_down(next, idx, raw, HeaderModel { params, ..h });
                assert(header_down(HeaderModel { params, ..h }) == HeaderModel {
                    params: params_down(params),
                    ..header_down(h)
                });
            },
            Err(d) => {},
        }
    } else if starts_with(cursor, "depends_parallel=["@) {
        lemma_depends_down(cursor, "depends_parallel=["@, idx, raw);
        match spec_parse_depends(cursor, "depends_parallel=["@, idx, raw) {
            Ok((deps, n)) => {
                lemma_first_in_props(cursor.skip("depends_parallel=["@.len() as int), CharClass::Is(']'));
                lemma_first_in_props(cursor.skip(n), CharClass::NotWhitespace);
                let next = trim_start(cursor.skip(n));
                lemma_header_down(next, idx, raw, HeaderModel { parallel_dependencies: deps, ..h });
                assert(header_down(HeaderModel { parallel_dependencies: deps, ..h }) == HeaderModel {
                    parallel_dependencies: deps_down(deps),
                    ..header_down(h)
                });
            },
            Err(d) => {},
        }
    } else if starts_with(cursor, "depends=["@) {
        lemma_depends_down(cursor, "depends=["@, idx, raw);
        match spec_parse_depends(cursor, "depends=["@, idx, raw) {
            Ok((deps, n)) => {
                lemma_first_in_props(cursor.skip("depends=["@.len() as int), CharClass::Is(']'));
                lemma_first_in_props(cursor.skip(n), CharClass::NotWhitespace);
                let next = trim_start(cursor.skip(n));
                lemma_header_down(next, idx, raw, HeaderModel { dependencies: deps, ..h });
                assert(header_down(HeaderModel { dependencies: deps, ..h }) == HeaderModel {
                    dependencies: deps_down(deps),
                    ..header_down(h)
                });
            },
            Err(d) => {},
        }
    }
}

/// A dependency list read with the next line's number is the one read with this one, moved down.
proof fn lemma_depends_down(cursor: Seq<char>, prefix: Seq<char>, idx: u32, raw: Seq<char>)
    ensures
        spec_parse_depends(cursor, prefix, next_line(idx), raw) == match spec_parse_depends(
            cursor,
            prefix,
            idx,
            raw,
        ) {
            Ok((deps, n)) => Ok((deps_down(deps), n)),
            Err(d) => Err(diag_down(d)),
        },
{
    let rest = cursor.skip(prefix.len() as int);
    let end = first_in(rest, CharClass::Is(']'));
    lemma_deps_from_down(rest.take(end), 0, depends_base(prefix, raw), idx);
}

/// The line that opens a task body lies one line further down.
proof fn lemma_find_open_brace_down(ls: Seq<Seq<char>>, i: int)
    requires
        0 <= i,
    ensures
        find_open_brace(lines_down(ls), i + 1) == match find_open_brace(ls, i) {
            BraceSearch::Found(b) => BraceSearch::Found(b + 1),
            BraceSearch::Unexpected => BraceSearch::Unexpected,
            BraceSearch::Missing => BraceSearch::Missing,
        },
    decreases ls.len() - i,
{
    if i < ls.len() {
        assert(lines_down(ls)[i + 1] == ls[i]);
        lemma_find_open_brace_down(ls, i + 1);
    }
}

/// A task body is read from the same lines, one line further down.
proof fn lemma_body_down(ls: Seq<Seq<char>>, i: int, depth: int, acc: Seq<Seq<char>>)
    requires
        0 <= i,
    ensures
        body_overflows(lines_down(ls), i + 1, depth) == body_overflows(ls, i, depth),
        body_scan(lines_down(ls), i + 1, depth, acc) == ({
            let r = body_scan(ls, i, depth, acc);
            (r.0, r.1 + 1, r.2)
        }),
    decreases ls.len() - i,
{
    if i < ls.len() {
        assert(lines_down(ls)[i + 1] == ls[i]);
        let d = depth + brace_delta(ls[i]);
        if d != 0 {
            lemma_body_down(ls, i + 1, d, acc.push(ls[i]));
        }
    }
}

/// After a malformed task, parsing resumes one line further down.
proof fn lemma_skip_down(ls: Seq<Seq<char>>, i: int)
    requires
        0 <= i,
    ensures
        spec_skip_to_next_toplevel(lines_down(ls), i + 1) == spec_skip_to_next_toplevel(ls, i) + 1,
    decreases ls.len() - i,
{
    if i < ls.len() {
        assert(lines_down(ls)[i + 1] == ls[i]);
        lemma_skip_down(ls, i + 1);
    }
}

/// The outcome of parsing a task, one line further down.
pub open spec fn outcome_down(o: TaskOutcome) -> TaskOutcome {
    match o {
        TaskOutcome::Parsed(t, n) => TaskOutcome::Parsed(task_down(t), n + 1),
        TaskOutcome::Failed(d) => TaskOutcome::Failed(diag_down(d)),
        TaskOutcome::Panics => TaskOutcome::Panics,
    }
}

/// The head of a task read with the next line's number, moved down.
proof fn lemma_task_head_down(raw: Seq<char>, idx: u32)
    ensures
        spec_task_head(raw, next_line(idx)) == match spec_task_head(raw, idx) {
            None => None,
            Some(Err(d)) => Some(Err(diag_down(d))),
            Some(Ok((name, ns, h))) => Some(Ok((name, span_down(ns), header_down(h)))),
        },
{
    let h0 = HeaderModel {
        params: Seq::empty(),
        dependencies: Seq::empty(),
        parallel_dependencies: Seq::empty(),
        open_brace: false,
    };
    assert(params_down(Seq::empty()) =~= Seq::<ParamModel>::empty());
    assert(deps_down(Seq::empty()) =~= Seq::<DependencyModel>::empty());
    assert(header_down(h0) == h0);
    lemma_header_down(task_header_text(raw), idx, raw, h0);
}

/// A task on line `i + 1` of the document with a newline in front is the
/// task on line `i`, moved down.
#[verifier::rlimit(50)]
proof fn lemma_task_down(ls: Seq<Seq<char>>, i: int)
    requires
        0 <= i < ls.len() <= u64::MAX,
    ensures
        spec_parse_task(lines_down(ls), i + 1) == outcome_down(spec_parse_task(ls, i)),
{
    let l2 = lines_down(ls);
    let raw = ls[i];
    assert(l2[i + 1] == raw);
    let idx = i as u32;
    lemma_next_line(i);
    assert((i + 1) as u32 == next_line(idx));
    lemma_task_head_down(raw, idx);
    lemma_find_open_brace_down(ls, i + 1);
    lemma_next_line(ls.len() - 1);
    assert((l2.len() - 1) as u32 == next_line((ls.len() - 1) as u32));
    crate::model::lemma_parse_task_next(ls, i);
    match spec_task_head(raw, idx) {
        Some(Ok((name, ns, h))) => {
            let opening = if h.open_brace {
                BraceSearch::Found(i + 1)
            } else {
                find_open_brace(ls, i + 1)
            };
            if let BraceSearch::Found(b) = opening {
                crate::model::lemma_find_open_brace_bounds(ls, i + 1);
                lemma_body_down(ls, b, 1, Seq::empty());
                crate::model::lemma_body_scan_bounds(ls, b, 1, Seq::empty());
                let next = body_scan(ls, b, 1, Seq::empty()).1;
                if next >= 1 {
                    lemma_next_line(next - 1);
                    assert(l2[next] == ls[next - 1]);
                }
            }
        },
        _ => {},
    }
}

/// Warning about pending annotations, one line further down.
proof fn lemma_flush_down(st: ParseState, idx: u32)
    ensures
        flush_annotations(state_down(st), next_line(idx)) == state_down(flush_annotations(st, idx)),
{
    if st.description is Some || st.confirm is Some {
        let w = match st.description {
            Some((_, l)) => l,
            None => match st.confirm {
                Some((_, l)) => l,
                None => idx,
            },
        };
        let d = crate::model::warning_at(
            Span { start_line: w, start_col: 0, end_line: w, end_col: 0 },
            "@description/@confirm must be followed by a task definition"@,
        );
        assert(diags_down(st.diagnostics.push(d)) =~= diags_down(st.diagnostics).push(diag_down(d)));
    }
}

/// A diagnostic added to the state, one line further down.
proof fn lemma_diag_push_down(ds: Seq<DiagnosticModel>, d: DiagnosticModel)
    ensures
        diags_down(ds.push(d)) == diags_down(ds).push(diag_down(d)),
{
    assert(diags_down(ds.push(d)) =~= diags_down(ds).push(diag_down(d)));
}

/// A step of the parser on line `i + 1` of the document with a newline in
/// front is the step on line `i`, moved down.
#[verifier::rlimit(60)]
proof fn lemma_step_down(ls: Seq<Seq<char>>, i: int, st: ParseState)
    requires
        0 <= i < ls.len() <= u64::MAX,
    ensures
        parse_step(lines_down(ls), i + 1, state_down(st)) == match parse_step(ls, i, st) {
            Some((n, s)) => Some((n + 1, state_down(s))),
            None => None,
        },
{
    let l2 = lines_down(ls);
    let raw = ls[i];
    assert(l2[i + 1] == raw);
    let idx = i as u32;
    lemma_next_line(i);
    let idx2 = next_line(idx);
    assert((i + 1) as u32 == idx2);
    let line = trim(raw);
    lemma_flush_down(st, idx);
    let s0 = flush_annotations(st, idx);
    if line.len() == 0 || line[0] == '#' {
    } else if starts_with(line, "@description "@) {
    } else if starts_with(line, "@confirm"@) {
    } else if starts_with(line, "export "@) {
        match spec_parse_export(raw, idx) {
            Ok(e) => {
                let e2 = ExportModel { span: span_down(e.span), ..e };
                assert(spec_parse_export(raw, idx2) == Ok::<ExportModel, DiagnosticModel>(e2));
                assert(exports_down(s0.exports.push(e)) =~= exports_down(s0.exports).push(e2));
            },
            Err(d) => {
                assert(spec_parse_export(raw, idx2) == Err::<ExportModel, DiagnosticModel>(diag_down(d)));
                lemma_diag_push_down(s0.diagnostics, d);
            },
        }
    } else if starts_with(line, "alias "@) {
        match spec_parse_alias(raw, idx) {
            Ok(e) => {
                let e2 = AliasModel { span: span_down(e.span), ..e };
                assert(spec_parse_alias(raw, idx2) == Ok::<AliasModel, DiagnosticModel>(e2));
                assert(aliases_down(s0.aliases.push(e)) =~= aliases_down(s0.aliases).push(e2));
            },
            Err(d) => {
                assert(spec_parse_alias(raw, idx2) == Err::<AliasModel, DiagnosticModel>(diag_down(d)));
                lemma_diag_push_down(s0.diagnostics, d);
            },
        }
    } else if starts_with(line, "include "@) {
        match spec_parse_include(raw, idx) {
            Ok(e) => {
                let e2 = PathModel { span: span_down(e.span), ..e };
                assert(spec_parse_include(raw, idx2) == Ok::<PathModel, DiagnosticModel>(e2));
                assert(paths_down(s0.includes.push(e)) =~= paths_down(s0.includes).push(e2));
            },
            Err(d) => {
                assert(spec_parse_include(raw, idx2) == Err::<PathModel, DiagnosticModel>(diag_down(d)));
                lemma_diag_push_down(s0.diagnostics, d);
            },
        }
    } else if starts_with(line, "dotenv "@) {
        match spec_parse_dotenv(raw, idx) {
            Ok(e) => {
                let e2 = PathModel { span: span_down(e.span), ..e };
                assert(spec_parse_dotenv(raw, idx2) == Ok::<PathModel, DiagnosticModel>(e2));
                assert(paths_down(s0.dotenv.push(e)) =~= paths_down(s0.dotenv).push(e2));
            },
            Err(d) => {
                assert(spec_parse_dotenv(raw, idx2) == Err::<PathModel, DiagnosticModel>(diag_down(d)));
                lemma_diag_push_down(s0.diagnostics, d);
            },
        }
    } else if starts_with(line, "task "@) {
        lemma_task_down(ls, i);
        lemma_skip_down(ls, i + 1);
        match spec_parse_task(ls, i) {
            TaskOutcome::Parsed(t, next) => {
                let t2 = TaskModel {
                    description: crate::model::annotation_text(st.description),
                    confirm: crate::model::annotation_text(st.confirm),
                    ..t
                };
                assert(tasks_down(st.tasks.push(t2)) =~= tasks_down(st.tasks).push(task_down(t2)));
            },
            TaskOutcome::Failed(d) => {
                lemma_diag_push_down(st.diagnostics, d);
            },
            TaskOutcome::Panics => {},
        }
    } else {
        let d = crate::model::error_at(crate::model::full_line_span(idx, raw), "unexpected line: "@ + line);
        lemma_diag_push_down(st.diagnostics, d);
    }
}

/// Finishing the state moved down gives the syntax tree moved down.
proof fn lemma_finish_down(st: ParseState)
    ensures
        finish(state_down(st)) == ast_down(finish(st)),
{
    let d1 = match st.description {
        Some((_, l)) => st.diagnostics.push(
            crate::model::warning_at(
                Span { start_line: l, start_col: 0, end_line: l, end_col: 0 },
                "@description not followed by a task definition"@,
            ),
        ),
        None => st.diagnostics,
    };
    if let Some((_, l)) = st.description {
        lemma_diag_push_down(
            st.diagnostics,
            crate::model::warning_at(
                Span { start_line: l, start_col: 0, end_line: l, end_col: 0 },
                "@description not followed by a task definition"@,
            ),
        );
    }
    if let Some((_, l)) = st.confirm {
        lemma_diag_push_down(
            d1,
            crate::model::warning_at(
                Span { start_line: l, start_col: 0, end_line: l, end_col: 0 },
                "@confirm not followed by a task definition"@,
            ),
        );
    }
}

/// Parsing the document with a newline in front from line `i + 1` is parsing
/// the document from line `i`, moved down.
proof fn lemma_parse_from_down(ls: Seq<Seq<char>>, i: int, st: ParseState)
    requires
        0 <= i,
        ls.len() <= u64::MAX,
    ensures
        parse_from(lines_down(ls), i + 1, state_down(st)) == parsed_down(parse_from(ls, i, st)),
    decreases ls.len() - i,
{
    if i >= ls.len() {
        lemma_finish_down(st);
    } else {
        lemma_step_down(ls, i, st);
        lemma_parse_step_advances(ls, i, st);
        if let Some((n, s)) = parse_step(ls, i, st) {
            lemma_parse_from_down(ls, n, s);
        }
    }
}

/// A newline in front of a document moves every span of what the parser finds
/// (tasks and their names, parameters and dependencies, exports, aliases,
/// includes, dotenv lines and diagnostics) down one line; names, values,
/// bodies, columns and counts stay as they are, and the parser panics on the
/// one document exactly when it panics on the other. Line numbers are `u32`s
/// and wrap; a text in memory has a byte length that fits a `usize`.
pub proof fn law_leading_newline_moves_spans_down(s: Seq<char>)
    requires
        utf8_len(s) <= usize::MAX,
    ensures
        spec_parse(seq!['\n'] + s) == parsed_down(spec_parse(s)),
{
    let ls = lines_of(s);
    lemma_lines_of_newline(s);
    lemma_lines_of_bounds(s);
    lemma_utf8_len_bounds(s);
    let st = initial_state();
    assert(state_down(st) == st) by {
        assert(tasks_down(st.tasks) =~= st.tasks);
        assert(aliases_down(st.aliases) =~= st.aliases);
        assert(exports_down(st.exports) =~= st.exports);
        assert(paths_down(st.includes) =~= st.includes);
        assert(paths_down(st.dotenv) =~= st.dotenv);
        assert(diags_down(st.diagnostics) =~= st.diagnostics);
    }
    let l2 = lines_down(ls);
    assert(l2[0] == Seq::<char>::empty());
    let e = Seq::<char>::empty();
    assert(trim_start(e) =~= e);
    crate::text::lemma_last_in_props(e, CharClass::NotWhitespace);
    assert(trim(e) =~= e);
    lemma_parse_from_down(ls, 0, st);
}

} // verus!
