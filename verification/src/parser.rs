//! The Taskfile parser, proved to compute what `model.rs` states.
use vstd::prelude::*;

use crate::ast::{
    aliases_view, deps_view, diagnostics_view, dotenvs_view, exports_view, includes_view,
    opt_view, params_view, tasks_view, Alias, Ast, Dependency, Task, DependencyModel, Diagnostic, DiagnosticSeverity, DotEnv, Export, Include, Param,
    ParamModel, Span,
};
use crate::model::{
    add_diagnostic, annotation_text, finish, flush_annotations, initial_state,
    lemma_parse_step_advances, parse_from, parse_step, spec_parse, ParseState,
    body_scan, body_overflows, braces_fit, brace_delta, find_open_brace, header_items, lemma_body_scan_bounds,
    lemma_find_open_brace_bounds, named, spec_parse_task, task_name,
    task_rest, BraceSearch, HeaderModel, TaskOutcome, brace_scan, brace_step, chars_within, dedent_amount, dedent_line,
    dedent_line_ok, dedent_ok, lemma_body_lines_fit, dedented_lines, min_indent, spec_dedent_body,
    spec_skip_to_next_toplevel, BraceScan, dep_piece, deps_from, dep_overflows, deps_overflow, depends_base, depends_overflow, header_panics, task_header_text, spec_task_head, error_at, full_line_span, spec_parse_depends, indent_bytes, lemma_param_at_advances, lemma_quoted_value_bounds, line_span, param_at, params_from,
    quoted_value, spec_parse_alias, spec_parse_params,
    spec_parse_assignment, spec_parse_dotenv, spec_parse_export, spec_parse_include,
    spec_parse_path, spec_unquote,
};
use crate::lines::{
    lemma_lines_fit, split_lines, lines_fit, range_to_vec,
};
use crate::text::{
    chars_of, find_class, find_seq_exec, first_in, lemma_find_seq_from_props, lemma_first_in_props,
    lemma_utf8_len_bounds, lemma_utf8_len_subrange, range_to_string, string_of, string_push, trim, trim_bounds, utf8_len,
    utf8_len_range, CharClass, starts_with, char_width, join_lines, lemma_utf8_len_take_step,
    lines_view, push_range, range_eq_str, rfind_class, starts_with_str, trim_start_bound,
    lemma_utf8_len_concat,
};

verus! {

/// The byte column of the first non-blank character of `raw`.
fn indent_bytes_of(raw: &Vec<char>) -> (r: usize)
    requires
        utf8_len(raw@) <= usize::MAX,
    ensures
        r == indent_bytes(raw@),
        r <= utf8_len(raw@),
{
    let a = find_class(raw, 0, raw.len(), CharClass::NotWhitespace);
    assert(raw@.subrange(0, raw.len() as int) =~= raw@);
    proof {
        lemma_utf8_len_subrange(raw@, 0, a as int);
    }
    utf8_len_range(raw, 0, a)
}

/// The number of bytes of `raw`.
fn byte_len(raw: &Vec<char>) -> (r: usize)
    requires
        utf8_len(raw@) <= usize::MAX,
    ensures
        r == utf8_len(raw@),
{
    assert(raw@.subrange(0, raw.len() as int) =~= raw@);
    utf8_len_range(raw, 0, raw.len())
}

/// The span of the whole line, from its first non-blank character.
fn line_span_of(idx: u32, raw: &Vec<char>) -> (r: Span)
    requires
        utf8_len(raw@) <= usize::MAX,
    ensures
        r == line_span(idx, raw@),
{
    let lead = indent_bytes_of(raw);
    let len = byte_len(raw);
    Span::new(idx, lead as u32, idx, len as u32)
}

/// The span of the whole line, from its first column.
fn full_line_span_of(idx: u32, raw: &Vec<char>) -> (r: Span)
    requires
        utf8_len(raw@) <= usize::MAX,
    ensures
        r == full_line_span(idx, raw@),
{
    let len = byte_len(raw);
    Span::new(idx, 0, idx, len as u32)
}

/// An error diagnostic with the given message.
fn error(span: Span, message: &str) -> (r: Diagnostic)
    ensures
        r@ == error_at(span, message@),
{
    Diagnostic { span, message: string_of(message), severity: DiagnosticSeverity::Error }
}

/// `unquote` of the characters `v[lo..hi]`.
pub fn unquote_range(v: &Vec<char>, lo: usize, hi: usize) -> (r: String)
    requires
        lo <= hi <= v.len(),
    ensures
        r@ == spec_unquote(v@.subrange(lo as int, hi as int)),
{
    let (a, b) = trim_bounds(v, lo, hi);
    let ghost t = v@.subrange(a as int, b as int);
    if b - a >= 2 && ((v[a] == '"' && v[b - 1] == '"') || (v[a] == '\'' && v[b - 1] == '\'')) {
        assert(t[0] == v@[a as int] && t.last() == v@[b - 1]);
        let r = range_to_string(v, a + 1, b - 1);
        assert(r@ =~= t.subrange(1, t.len() - 1));
        r
    } else {
        proof {
            if t.len() >= 2 {
                assert(t[0] == v@[a as int] && t.last() == v@[b - 1]);
            }
        }
        range_to_string(v, a, b)
    }
}

/// A value without surrounding whitespace, and without one pair of enclosing
/// quotes (`"..."` or `'...'`) if it has them.
pub fn unquote(s: &str) -> (r: String)
    ensures
        r@ == spec_unquote(s@),
{
    let v = chars_of(s);
    assert(v@.subrange(0, v.len() as int) =~= v@);
    unquote_range(&v, 0, v.len())
}

/// A `KEYWORD name=value` line whose trimmed text starts with a keyword of `kw_len` characters.
fn parse_assignment(
    raw: &Vec<char>,
    line_idx: u32,
    kw_len: usize,
    no_eq_message: &str,
    empty_message: &str,
) -> (r: Result<(String, String), Diagnostic>)
    requires
        utf8_len(raw@) <= usize::MAX,
        kw_len <= trim(raw@).len(),
    ensures
        match (r, spec_parse_assignment(raw@, line_idx, kw_len as int, no_eq_message@, empty_message@)) {
            (Ok((k, v)), Ok((sk, sv))) => k@ == sk && v@ == sv,
            (Err(d), Err(sd)) => d@ == sd,
            _ => false,
        },
{
    let (a, b) = trim_bounds(raw, 0, raw.len());
    assert(raw@.subrange(0, raw.len() as int) =~= raw@);
    let (r0, r1) = trim_bounds(raw, a + kw_len, b);
    assert(raw@.subrange((a + kw_len) as int, b as int) =~= trim(raw@).skip(kw_len as int));
    let ghost rest = raw@.subrange(r0 as int, r1 as int);
    let eq = find_class(raw, r0, r1, CharClass::Is('='));
    if eq == r1 {
        return Err(error(line_span_of(line_idx, raw), no_eq_message));
    }
    let (k0, k1) = trim_bounds(raw, r0, eq);
    assert(raw@.subrange(r0 as int, eq as int) =~= rest.take(eq - r0));
    let (v0, v1) = trim_bounds(raw, eq + 1, r1);
    assert(raw@.subrange(eq + 1, r1 as int) =~= rest.skip(eq - r0 + 1));
    if k0 == k1 {
        return Err(error(line_span_of(line_idx, raw), empty_message));
    }
    let key = range_to_string(raw, k0, k1);
    let value = unquote_range(raw, v0, v1);
    Ok((key, value))
}

/// Parses an `export KEY=value` line.
pub fn parse_export(raw: &Vec<char>, line_idx: u32) -> (r: Result<Export, Diagnostic>)
    requires
        utf8_len(raw@) <= usize::MAX,
        starts_with(trim(raw@), "export "@),
    ensures
        match (r, spec_parse_export(raw@, line_idx)) {
            (Ok(e), Ok(se)) => e@ == se,
            (Err(d), Err(sd)) => d@ == sd,
            _ => false,
        },
{
    proof {
        reveal_strlit("export ");
    }
    match parse_assignment(
        raw,
        line_idx,
        7,
        "expected '=' in export statement",
        "empty export key",
    ) {
        Ok((key, value)) => Ok(Export { key, value, span: line_span_of(line_idx, raw) }),
        Err(d) => Err(d),
    }
}

/// Parses an `alias name=value` line.
pub fn parse_alias(raw: &Vec<char>, line_idx: u32) -> (r: Result<Alias, Diagnostic>)
    requires
        utf8_len(raw@) <= usize::MAX,
        starts_with(trim(raw@), "alias "@),
    ensures
        match (r, spec_parse_alias(raw@, line_idx)) {
            (Ok(a), Ok(sa)) => a@ == sa,
            (Err(d), Err(sd)) => d@ == sd,
            _ => false,
        },
{
    proof {
        reveal_strlit("alias ");
    }
    match parse_assignment(
        raw,
        line_idx,
        6,
        "expected '=' in alias statement",
        "empty alias name",
    ) {
        Ok((name, value)) => Ok(Alias { name, value, span: line_span_of(line_idx, raw) }),
        Err(d) => Err(d),
    }
}

/// A `KEYWORD path` line whose trimmed text starts with a keyword of `kw_len` characters:
/// the path, or a diagnostic.
fn parse_path(raw: &Vec<char>, line_idx: u32, kw_len: usize, empty_message: &str) -> (r: Result<
    (String, Span),
    Diagnostic,
>)
    requires
        utf8_len(raw@) <= usize::MAX,
        kw_len <= trim(raw@).len(),
    ensures
        match (r, spec_parse_path(raw@, line_idx, kw_len as int, empty_message@)) {
            (Ok((p, s)), Ok(sp)) => p@ == sp.path && s == sp.span,
            (Err(d), Err(sd)) => d@ == sd,
            _ => false,
        },
{
    let (a, b) = trim_bounds(raw, 0, raw.len());
    assert(raw@.subrange(0, raw.len() as int) =~= raw@);
    let (r0, r1) = trim_bounds(raw, a + kw_len, b);
    assert(raw@.subrange((a + kw_len) as int, b as int) =~= trim(raw@).skip(kw_len as int));
    let path = unquote_range(raw, r0, r1);
    if path.unicode_len() == 0 {
        return Err(error(line_span_of(line_idx, raw), empty_message));
    }
    Ok((path, line_span_of(line_idx, raw)))
}

/// Parses an `include path` line.
pub fn parse_include(raw: &Vec<char>, line_idx: u32) -> (r: Result<Include, Diagnostic>)
    requires
        utf8_len(raw@) <= usize::MAX,
        starts_with(trim(raw@), "include "@),
    ensures
        match (r, spec_parse_include(raw@, line_idx)) {
            (Ok(i), Ok(si)) => i@ == si,
            (Err(d), Err(sd)) => d@ == sd,
            _ => false,
        },
{
    proof {
        reveal_strlit("include ");
    }
    match parse_path(raw, line_idx, 8, "empty include path") {
        Ok((path, span)) => Ok(Include { path, span }),
        Err(d) => Err(d),
    }
}

/// Parses a `dotenv path` line.
pub fn parse_dotenv(raw: &Vec<char>, line_idx: u32) -> (r: Result<DotEnv, Diagnostic>)
    requires
        utf8_len(raw@) <= usize::MAX,
        starts_with(trim(raw@), "dotenv "@),
    ensures
        match (r, spec_parse_dotenv(raw@, line_idx)) {
            (Ok(d), Ok(sd)) => d@ == sd,
            (Err(d), Err(sd)) => d@ == sd,
            _ => false,
        },
{
    proof {
        reveal_strlit("dotenv ");
    }
    match parse_path(raw, line_idx, 7, "empty dotenv path") {
        Ok((path, span)) => Ok(DotEnv { path, span }),
        Err(d) => Err(d),
    }
}

// ---------------------------------------------------------------------------
// Task headers
/// The quoted default value that starts at `start` (after the opening quote)
/// within `inner = raw[i0..i1]`: the value and the index after it.
fn quoted_value_exec(raw: &Vec<char>, i0: usize, i1: usize, start: usize) -> (r: (String, usize))
    requires
        i0 <= start <= i1 <= raw.len(),
    ensures
        r.0@ == quoted_value(raw@.subrange(i0 as int, i1 as int), start - i0, false).0,
        r.1 == i0 + quoted_value(raw@.subrange(i0 as int, i1 as int), start - i0, false).1,
{
    let ghost inner = raw@.subrange(i0 as int, i1 as int);
    let mut val = String::new();
    let mut p = start;
    let mut escaped = false;
    assert(val@ + quoted_value(inner, p - i0, escaped).0 =~= quoted_value(inner, p - i0, escaped).0);
    while p < i1
        invariant
            i0 <= start <= p <= i1 <= raw.len(),
            inner == raw@.subrange(i0 as int, i1 as int),
            quoted_value(inner, start - i0, false).0 == val@ + quoted_value(inner, p - i0, escaped).0,
            quoted_value(inner, start - i0, false).1 == quoted_value(inner, p - i0, escaped).1,
        decreases i1 - p,
    {
        let ch = raw[p];
        assert(inner[p - i0] == ch);
        let ghost rest = quoted_value(inner, p - i0 + 1, false);
        if escaped {
            assert(val@ + (seq![ch] + rest.0) =~= val@.push(ch) + rest.0);
            string_push(&mut val, ch);
            escaped = false;
        } else if ch == '\\' {
            escaped = true;
        } else if ch == '"' {
            assert(val@ + Seq::<char>::empty() =~= val@);
            return (val, p + 1);
        } else {
            assert(val@ + (seq![ch] + rest.0) =~= val@.push(ch) + rest.0);
            string_push(&mut val, ch);
        }
        p += 1;
    }
    assert(val@ + Seq::<char>::empty() =~= val@);
    (val, i1)
}

/// The parameter of `inner = raw[i0..i1]` that starts at or after `k`, and
/// the index after it; `None` where the list ends.
#[verifier::rlimit(50)]
fn next_param(raw: &Vec<char>, i0: usize, i1: usize, k: usize, base: u128, line_idx: u32) -> (r:
    Option<(Param, usize)>)
    requires
        i0 <= k < i1 <= raw.len(),
        utf8_len(raw@) <= usize::MAX,
        base <= utf8_len(raw@) + 1,
    ensures
        match r {
            None => param_at(raw@.subrange(i0 as int, i1 as int), k - i0, base as int, line_idx) is None,
            Some((p, after)) => param_at(raw@.subrange(i0 as int, i1 as int), k - i0, base as int, line_idx)
                == Some((p@, after - i0)),
        },
{
    let ghost inner = raw@.subrange(i0 as int, i1 as int);
    proof {
        lemma_utf8_len_bounds(raw@);
    }
    let s = find_class(raw, k, i1, CharClass::NotWhitespace);
    assert(raw@.subrange(k as int, i1 as int) =~= inner.skip(k - i0));
    if s == i1 {
        return None;
    }
    let ne = find_class(raw, s, i1, CharClass::ParamNameEnd);
    assert(raw@.subrange(s as int, i1 as int) =~= inner.skip(s - i0));
    if ne == s {
        return None;
    }
    let name = range_to_string(raw, s, ne);
    assert(name@ =~= inner.subrange(s - i0, ne - i0));
    let ghost gj = ne + 1;
    proof {
        if gj <= i1 {
            assert(raw@.subrange(gj as int, i1 as int) =~= inner.skip(gj - i0));
        }
        lemma_first_in_props(inner.skip(gj - i0), CharClass::Whitespace);
        lemma_quoted_value_bounds(inner, gj - i0 + 1, false);
    }
    let mut default: Option<String> = None;
    let mut after = ne;
    if ne < i1 && raw[ne] == '=' {
        let j = ne + 1;
        if j < i1 && raw[j] == '"' {
            let (v, a) = quoted_value_exec(raw, i0, i1, j + 1);
            default = Some(v);
            after = a;
        } else {
            let e = find_class(raw, j, i1, CharClass::Whitespace);
            let v = range_to_string(raw, j, e);
            assert(v@ =~= inner.subrange(j - i0, e - i0));
            default = Some(v);
            after = e;
        }
    }
    proof {
        lemma_utf8_len_subrange(raw@, i0 as int, s as int);
        lemma_utf8_len_subrange(raw@, i0 as int, after as int);
        assert(raw@.subrange(i0 as int, s as int) =~= inner.take(s - i0));
        assert(raw@.subrange(i0 as int, after as int) =~= inner.take(after - i0));
    }
    let start_bytes = utf8_len_range(raw, i0, s) as u128;
    let after_bytes = utf8_len_range(raw, i0, after) as u128;
    assert(base + start_bytes <= 2 * usize::MAX + 1 && base + after_bytes <= 2 * usize::MAX + 1);
    let span = Span::new(line_idx, (base + start_bytes) as u32, line_idx, (base + after_bytes) as u32);
    Some((Param { name, default, span }, after))
}

/// The parameter list at the start of the cursor `raw[c0..c1]`, which begins
/// with `[`: the parameters and the index in `raw` of the closing `]`.
pub fn parse_params(raw: &Vec<char>, c0: usize, c1: usize, line_idx: u32) -> (r: Result<
    (Vec<Param>, usize),
    Diagnostic,
>)
    requires
        c0 < c1 <= raw.len(),
        raw@[c0 as int] == '[',
        utf8_len(raw@) <= usize::MAX,
    ensures
        match (r, spec_parse_params(raw@.subrange(c0 as int, c1 as int), line_idx, raw@)) {
            (Ok((ps, end)), Ok((sps, send))) => params_view(ps@) == sps && end == c0 + send,
            (Err(d), Err(sd)) => d@ == sd,
            _ => false,
        },
{
    let ghost cursor = raw@.subrange(c0 as int, c1 as int);
    let end = find_class(raw, c0, c1, CharClass::Is(']'));
    if end == c1 {
        return Err(error(full_line_span_of(line_idx, raw), "unterminated parameter list"));
    }
    proof {
        lemma_first_in_props(cursor, CharClass::Is(']'));
        assert(cursor[0] == '[');
    }
    let pat = range_to_vec(raw, c0, c1);
    let found = find_seq_exec(raw, &pat);
    proof {
        lemma_find_seq_from_props(raw@, pat@, 0);
    }
    let base: u128 = match found {
        Some(p) => {
            proof {
                lemma_utf8_len_subrange(raw@, 0, p as int);
            }
            utf8_len_range(raw, 0, p) as u128 + 1
        },
        None => 0,
    };
    let i0 = c0 + 1;
    let i1 = end;
    let ghost inner = raw@.subrange(i0 as int, i1 as int);
    assert(inner =~= cursor.subrange(1, end - c0));
    let mut params: Vec<Param> = Vec::new();
    let mut k = i0;
    assert(params_view(params@) + params_from(inner, 0, base as int, line_idx) =~= params_from(
        inner,
        0,
        base as int,
        line_idx,
    ));
    while k < i1
        invariant
            i0 <= k <= i1 < c1 <= raw.len(),
            inner == raw@.subrange(i0 as int, i1 as int),
            utf8_len(raw@) <= usize::MAX,
            base <= utf8_len(raw@) + 1,
            params_from(inner, 0, base as int, line_idx) == params_view(params@) + params_from(
                inner,
                k - i0,
                base as int,
                line_idx,
            ),
        ensures
            params_from(inner, 0, base as int, line_idx) == params_view(params@),
        decreases i1 - k,
    {
        let step = next_param(raw, i0, i1, k, base, line_idx);
        proof {
            lemma_param_at_advances(inner, k - i0, base as int, line_idx);
        }
        match step {
            None => {
                assert(params_view(params@) + Seq::<ParamModel>::empty() =~= params_view(params@));
                break;
            },
            Some((param, after)) => {
                let ghost p0 = params@;
                params.push(param);
                proof {
                    assert(params_view(params@) =~= params_view(p0).push(param@));
                    assert(params_view(params@) + params_from(
                        inner,
                        after - i0,
                        base as int,
                        line_idx,
                    ) =~= params_view(p0) + (seq![param@] + params_from(
                        inner,
                        after - i0,
                        base as int,
                        line_idx,
                    )));
                }
                k = after;
            },
        }
    }
    Ok((params, end))
}

/// The comma-separated piece of `inner = raw[i0..i1]` that starts at `o`:
/// the dependency it names, if it is not blank, and the index where it ends;
/// `None` where the dependency's end column leaves `u32`.
fn next_dep(raw: &Vec<char>, i0: usize, i1: usize, o: usize, base: u128, line_idx: u32) -> (r: Option<(
    Option<Dependency>,
    usize,
)>)
    requires
        i0 <= o <= i1 <= raw.len(),
        utf8_len(raw@) <= usize::MAX,
        base <= 2 * usize::MAX,
    ensures
        r is None <==> dep_overflows(raw@.subrange(i0 as int, i1 as int), o - i0, base as int),
        r matches Some((d, e)) ==> {
            &&& o <= e <= i1
            &&& e == i0 + dep_piece(raw@.subrange(i0 as int, i1 as int), o - i0, base as int, line_idx).1
            &&& match (d, dep_piece(raw@.subrange(i0 as int, i1 as int), o - i0, base as int, line_idx).0) {
                (Some(d), Some(sd)) => d@ == sd,
                (None, None) => true,
                _ => false,
            }
        },
{
    let ghost inner = raw@.subrange(i0 as int, i1 as int);
    let e = find_class(raw, o, i1, CharClass::Is(','));
    assert(raw@.subrange(o as int, i1 as int) =~= inner.skip(o - i0));
    let ghost piece = inner.subrange(o - i0, e - i0);
    assert(raw@.subrange(o as int, e as int) =~= piece);
    let (t0, t1) = trim_bounds(raw, o, e);
    if t0 == t1 {
        return Some((None, e));
    }
    proof {
        lemma_utf8_len_subrange(raw@, i0 as int, o as int);
        lemma_utf8_len_subrange(raw@, o as int, t0 as int);
        lemma_utf8_len_subrange(raw@, t0 as int, t1 as int);
        assert(raw@.subrange(i0 as int, o as int) =~= inner.take(o - i0));
        assert(raw@.subrange(o as int, t0 as int) =~= piece.take(t0 - o));
    }
    let start = base + utf8_len_range(raw, i0, o) as u128 + utf8_len_range(raw, o, t0) as u128;
    let nb = utf8_len_range(raw, t0, t1) as u128;
    let s32 = start as u32;
    let n32 = nb as u32;
    if s32 as u64 + n32 as u64 > u32::MAX as u64 {
        return None;
    }
    let name = range_to_string(raw, t0, t1);
    let span = Span::new(line_idx, s32, line_idx, s32 + n32);
    Some((Some(Dependency { name, span }), e))
}

/// The dependency list at the start of the cursor `raw[c0..c1]`, which begins
/// with `prefix` (`depends=[` or `depends_parallel=[`): the dependencies and
/// the index in `raw` after the closing `]`, or a diagnostic; `None` where the
/// end column of a dependency leaves `u32`.
pub fn parse_depends_prefixed(raw: &Vec<char>, c0: usize, c1: usize, prefix: &str, line_idx: u32) -> (r:
    Option<Result<(Vec<Dependency>, usize), Diagnostic>>)
    requires
        c0 <= c1 <= raw.len(),
        starts_with(raw@.subrange(c0 as int, c1 as int), prefix@),
        utf8_len(raw@) <= usize::MAX,
        utf8_len(prefix@) <= usize::MAX,
    ensures
        r is None <==> depends_overflow(raw@.subrange(c0 as int, c1 as int), prefix@, raw@),
        r matches Some(res) ==> match (res, spec_parse_depends(raw@.subrange(c0 as int, c1 as int), prefix@, line_idx, raw@)) {
            (Ok((ds, n)), Ok((sds, sn))) => deps_view(ds@) == sds && n == c0 + sn,
            (Err(d), Err(sd)) => d@ == sd,
            _ => false,
        },
{
    let ghost cursor = raw@.subrange(c0 as int, c1 as int);
    let pv = chars_of(prefix);
    let plen = pv.len();
    let r0 = c0 + plen;
    assert(raw@.subrange(r0 as int, c1 as int) =~= cursor.skip(plen as int));
    let end = find_class(raw, r0, c1, CharClass::Is(']'));
    if end == c1 {
        return Some(Err(error(full_line_span_of(line_idx, raw), "unterminated depends list")));
    }
    let found = find_seq_exec(raw, &pv);
    proof {
        lemma_find_seq_from_props(raw@, pv@, 0);
        assert(pv@.subrange(0, plen as int) =~= pv@);
    }
    let pbytes = utf8_len_range(&pv, 0, plen) as u128;
    let base: u128 = match found {
        Some(p) => {
            proof {
                lemma_utf8_len_subrange(raw@, 0, p as int);
            }
            utf8_len_range(raw, 0, p) as u128 + pbytes
        },
        None => pbytes,
    };
    let i0 = r0;
    let i1 = end;
    let ghost inner = raw@.subrange(i0 as int, i1 as int);
    assert(inner =~= cursor.skip(plen as int).take(end - r0));
    assert(pv@ == prefix@);
    let mut deps: Vec<Dependency> = Vec::new();
    let mut o = i0;
    assert(deps_view(deps@) + deps_from(inner, 0, base as int, line_idx) =~= deps_from(
        inner,
        0,
        base as int,
        line_idx,
    ));
    loop
        invariant
            i0 <= o <= i1 < c1 <= raw.len(),
            i1 == end,
            i0 == c0 + plen,
            plen == prefix@.len(),
            pv@ == prefix@,
            cursor == raw@.subrange(c0 as int, c1 as int),
            base == depends_base(prefix@, raw@),
            inner == cursor.skip(plen as int).take(end - i0),
            end - i0 == first_in(cursor.skip(plen as int), CharClass::Is(']')),
            inner == raw@.subrange(i0 as int, i1 as int),
            utf8_len(raw@) <= usize::MAX,
            base <= 2 * usize::MAX,
            deps_from(inner, 0, base as int, line_idx) == deps_view(deps@) + deps_from(
                inner,
                o - i0,
                base as int,
                line_idx,
            ),
            deps_overflow(inner, 0, base as int) == deps_overflow(inner, o - i0, base as int),
        decreases i1 + 1 - o,
    {
        proof {
            lemma_first_in_props(inner.skip(o - i0), CharClass::Is(','));
        }
        let step = next_dep(raw, i0, i1, o, base, line_idx);
        let (d, e) = match step {
            None => {
                return None;
            },
            Some(x) => x,
        };
        let ghost d0 = deps@;
        let ghost here = match dep_piece(inner, o - i0, base as int, line_idx).0 {
            Some(x) => seq![x],
            None => Seq::<DependencyModel>::empty(),
        };
        match d {
            Some(dep) => {
                deps.push(dep);
                assert(deps_view(deps@) =~= deps_view(d0) + here);
            },
            None => {
                assert(deps_view(deps@) =~= deps_view(d0) + here);
            },
        }
        if e == i1 {
            assert(deps_from(inner, 0, base as int, line_idx) =~= deps_view(deps@));
            return Some(Ok((deps, end + 1)));
        }
        assert(deps_from(inner, 0, base as int, line_idx) =~= deps_view(deps@) + deps_from(
            inner,
            e + 1 - i0,
            base as int,
            line_idx,
        ));
        o = e + 1;
    }
}

// ---------------------------------------------------------------------------
// Braces and bodies
/// Once a `#` has ended the scan of a line, the counter does not change.
proof fn lemma_brace_scan_stopped(l: Seq<char>, n: int, m: int)
    requires
        0 < n <= m <= l.len(),
        brace_scan(l, n).stopped,
    ensures
        brace_scan(l, m) == brace_scan(l, n),
    decreases m - n,
{
    if m > n {
        lemma_brace_scan_stopped(l, n, m - 1);
    }
}

/// Adds to `depth` the braces that `line[..]` opens and closes outside quotes
/// and comments; the count must stay within `i32` at every character.
pub fn count_braces_in(line: &Vec<char>, depth: &mut i32)
    requires
        braces_fit(line@, *old(depth) as int),
    ensures
        *final(depth) == *old(depth) + brace_delta(line@),
{
    let ghost d0 = *depth as int;
    let mut in_single = false;
    let mut in_double = false;
    let mut prev = '\0';
    let mut i: usize = 0;
    while i < line.len()
        invariant
            i <= line.len(),
            braces_fit(line@, d0),
            brace_scan(line@, i as int) == (BraceScan {
                in_single,
                in_double,
                prev,
                delta: *depth - d0,
                stopped: false,
            }),
        ensures
            brace_scan(line@, line.len() as int).delta == *depth - d0,
        decreases line.len() - i,
    {
        let ch = line[i];
        assert(brace_scan(line@, i + 1) == brace_step(brace_scan(line@, i as int), ch));
        assert(i32::MIN <= brace_scan(line@, i + 1).delta + d0 <= i32::MAX);
        if !in_single && !in_double && ch == '#' {
            proof {
                lemma_brace_scan_stopped(line@, i + 1, line.len() as int);
            }
            break;
        }
        if ch == '\'' && !in_double && prev != '\\' {
            in_single = !in_single;
        } else if ch == '"' && !in_single && prev != '\\' {
            in_double = !in_double;
        } else if !in_single && !in_double {
            if ch == '{' {
                *depth = *depth + 1;
            } else if ch == '}' {
                *depth = *depth - 1;
            }
        }
        prev = ch;
        i += 1;
    }
}

/// Adds to `depth` the braces that `line` opens and closes outside quotes and
/// comments; the count must stay within `i32` at every character.
pub fn count_braces(line: &str, depth: &mut i32)
    requires
        braces_fit(line@, *old(depth) as int),
    ensures
        *final(depth) == *old(depth) + brace_delta(line@),
{
    let v = chars_of(line);
    count_braces_in(&v, depth);
}

/// Whether counting the braces of `line` from `depth` stays within `i32`.
pub fn braces_fit_in(line: &Vec<char>, depth: i32) -> (r: bool)
    ensures
        r == braces_fit(line@, depth as int),
{
    let mut in_single = false;
    let mut in_double = false;
    let mut prev = '\0';
    let mut cur: i64 = depth as i64;
    let mut i: usize = 0;
    assert(brace_scan(line@, 0).delta == 0);
    while i < line.len()
        invariant
            i <= line.len(),
            i32::MIN <= cur <= i32::MAX,
            forall|n: int| 0 <= n <= i ==> i32::MIN <= #[trigger] brace_scan(line@, n).delta + depth <= i32::MAX,
            brace_scan(line@, i as int) == (BraceScan {
                in_single,
                in_double,
                prev,
                delta: cur - depth,
                stopped: false,
            }),
        decreases line.len() - i,
    {
        let ch = line[i];
        assert(brace_scan(line@, i + 1) == brace_step(brace_scan(line@, i as int), ch));
        if !in_single && !in_double && ch == '#' {
            proof {
                assert forall|n: int| 0 <= n <= line.len() implies i32::MIN <= #[trigger] brace_scan(line@, n).delta
                    + depth <= i32::MAX by {
                    if n > i {
                        lemma_brace_scan_stopped(line@, i + 1, n);
                    }
                }
            }
            return true;
        }
        if ch == '\'' && !in_double && prev != '\\' {
            in_single = !in_single;
        } else if ch == '"' && !in_single && prev != '\\' {
            in_double = !in_double;
        } else if !in_single && !in_double {
            if ch == '{' {
                cur = cur + 1;
            } else if ch == '}' {
                cur = cur - 1;
            }
        }
        prev = ch;
        i += 1;
        if cur < i32::MIN as i64 || cur > i32::MAX as i64 {
            assert(!(i32::MIN <= brace_scan(line@, i as int).delta + depth <= i32::MAX));
            return false;
        }
    }
    true
}

/// The lines of a task body from line `b` on, the line after the closing one
/// and the final depth (0 when the body was closed); `None` where the brace
/// count overflows.
fn collect_body(lines: &Vec<Vec<char>>, b: usize) -> (r: Option<(Vec<Vec<char>>, usize, i32)>)
    requires
        b <= lines.len(),
    ensures
        match r {
            None => body_overflows(lines_view(lines@), b as int, 1),
            Some((body, next, d)) => !body_overflows(lines_view(lines@), b as int, 1)
                && body_scan(lines_view(lines@), b as int, 1, Seq::empty()) == (lines_view(body@), next as int, d as int),
        },
{
    let ghost ls = lines_view(lines@);
    let mut depth: i32 = 1;
    let mut body: Vec<Vec<char>> = Vec::new();
    let mut i = b;
    let mut closed = false;
    proof {
        assert(lines_view(body@) =~= Seq::<Seq<char>>::empty());
    }
    while i < lines.len() && !closed
        invariant
            b <= i <= lines.len(),
            ls == lines_view(lines@),
            !closed ==> body_scan(ls, b as int, 1, Seq::empty()) == body_scan(
                ls,
                i as int,
                depth as int,
                lines_view(body@),
            ),
            !closed ==> body_overflows(ls, b as int, 1) == body_overflows(ls, i as int, depth as int),
            !closed ==> depth != 0,
            closed ==> body_scan(ls, b as int, 1, Seq::empty()) == (
                lines_view(body@),
                i as int,
                0int,
            ) && depth == 0 && !body_overflows(ls, b as int, 1),
        decreases lines.len() - i,
    {
        let l = &lines[i];
        assert(ls[i as int] == l@);
        if !braces_fit_in(l, depth) {
            return None;
        }
        count_braces_in(l, &mut depth);
        let ghost b0 = body@;
        if depth == 0 {
            let (t0, t1) = trim_bounds(l, 0, l.len());
            assert(l@.subrange(0, l.len() as int) =~= l@);
            let is_close = range_eq_str(l, t0, t1, "}");
            let p = rfind_class(l, 0, l.len(), CharClass::Is('}'));
            if !is_close && p > 0 {
                let (u0, u1) = trim_bounds(l, 0, p - 1);
                assert(l@.subrange(0, p - 1) =~= l@.take(p - 1));
                if u0 < u1 {
                    let before = range_to_vec(l, 0, p - 1);
                    body.push(before);
                    assert(lines_view(body@) =~= lines_view(b0).push(l@.take(p - 1)));
                }
            }
            closed = true;
        } else {
            let copy = range_to_vec(l, 0, l.len());
            assert(copy@ =~= l@);
            body.push(copy);
            assert(lines_view(body@) =~= lines_view(b0).push(l@));
        }
        i += 1;
    }
    Some((body, i, depth))
}

/// The least indentation of the non-blank lines, if there is one.
fn min_indent_exec(ls: &Vec<Vec<char>>) -> (r: Option<usize>)
    requires
        forall|k: int| 0 <= k < ls.len() ==> utf8_len(#[trigger] ls@[k]@) <= usize::MAX,
    ensures
        match (r, min_indent(lines_view(ls@))) {
            (Some(a), Some(b)) => a == b,
            (None, None) => true,
            _ => false,
        },
{
    let ghost v = lines_view(ls@);
    let mut m: Option<usize> = None;
    let mut k: usize = 0;
    assert(v.take(0) =~= Seq::<Seq<char>>::empty());
    while k < ls.len()
        invariant
            k <= ls.len(),
            v == lines_view(ls@),
            forall|j: int| 0 <= j < ls.len() ==> utf8_len(#[trigger] ls@[j]@) <= usize::MAX,
            match (m, min_indent(v.take(k as int))) {
                (Some(a), Some(b)) => a == b,
                (None, None) => true,
                _ => false,
            },
        decreases ls.len() - k,
    {
        let l = &ls[k];
        assert(v[k as int] == l@);
        assert(v.take(k + 1).drop_last() =~= v.take(k as int));
        let (t0, t1) = trim_bounds(l, 0, l.len());
        assert(l@.subrange(0, l.len() as int) =~= l@);
        if t0 < t1 {
            let ind = indent_bytes_of(l);
            m = match m {
                None => Some(ind),
                Some(old_m) => Some(
                    if ind < old_m {
                        ind
                    } else {
                        old_m
                    },
                ),
            };
        }
        k += 1;
    }
    assert(v.take(ls.len() as int) =~= v);
    m
}

/// `chars_within(l, m)`, and the number of bytes of that many characters.
pub(crate) fn chars_within_exec(l: &Vec<char>, m: usize) -> (r: (usize, usize))
    requires
        utf8_len(l@) <= usize::MAX,
    ensures
        r.0 == chars_within(l@, m as int),
        r.1 == utf8_len(l@.take(r.0 as int)),
        r.0 <= l.len(),
{
    let mut i: usize = 0;
    let mut acc: usize = 0;
    assert(l@.skip(0) =~= l@);
    assert(l@.take(0) =~= Seq::<char>::empty());
    while acc < m && i < l.len()
        invariant
            i <= l.len(),
            utf8_len(l@) <= usize::MAX,
            acc == utf8_len(l@.take(i as int)),
            chars_within(l@, m as int) == i + chars_within(l@.skip(i as int), m - acc),
        decreases l.len() - i,
    {
        proof {
            lemma_utf8_len_take_step(l@, i as int);
            lemma_utf8_len_subrange(l@, 0, i + 1);
            assert(l@.skip(i as int).drop_first() =~= l@.skip(i + 1));
            assert(l@.skip(i as int)[0] == l@[i as int]);
        }
        acc = acc + char_width(l[i]);
        i += 1;
    }
    proof {
        if i == l.len() {
            assert(l@.skip(i as int).len() == 0);
        }
    }
    (i, acc)
}

/// Whether dedenting the lines of a body cuts no character in two.
pub fn dedent_is_safe(ls: &Vec<Vec<char>>) -> (r: bool)
    requires
        forall|k: int| 0 <= k < ls.len() ==> utf8_len(#[trigger] ls@[k]@) <= usize::MAX,
    ensures
        r == dedent_ok(lines_view(ls@)),
{
    let ghost v = lines_view(ls@);
    let m = match min_indent_exec(ls) {
        Some(a) => a,
        None => 0,
    };
    let mut k: usize = 0;
    while k < ls.len()
        invariant
            k <= ls.len(),
            v == lines_view(ls@),
            m == dedent_amount(v),
            forall|j: int| 0 <= j < ls.len() ==> utf8_len(#[trigger] ls@[j]@) <= usize::MAX,
            forall|j: int| 0 <= j < k ==> dedent_line_ok(#[trigger] v[j], m as int),
        decreases ls.len() - k,
    {
        let l = &ls[k];
        assert(v[k as int] == l@);
        let n = byte_len(l);
        if n >= m {
            let (_c, acc) = chars_within_exec(l, m);
            if acc != m {
                return false;
            }
        }
        k += 1;
    }
    true
}

/// The lines of a task body without their common indentation, joined by `\n`.
pub fn dedent_body(ls: &Vec<Vec<char>>) -> (r: String)
    requires
        forall|k: int| 0 <= k < ls.len() ==> utf8_len(#[trigger] ls@[k]@) <= usize::MAX,
        dedent_ok(lines_view(ls@)),
    ensures
        r@ == spec_dedent_body(lines_view(ls@)),
{
    let ghost v = lines_view(ls@);
    let ghost d = dedented_lines(v);
    let m = match min_indent_exec(ls) {
        Some(a) => a,
        None => 0,
    };
    let mut s = String::new();
    let mut k: usize = 0;
    assert(d.take(0) =~= Seq::<Seq<char>>::empty());
    while k < ls.len()
        invariant
            k <= ls.len(),
            v == lines_view(ls@),
            d == dedented_lines(v),
            m == dedent_amount(v),
            dedent_ok(v),
            forall|j: int| 0 <= j < ls.len() ==> utf8_len(#[trigger] ls@[j]@) <= usize::MAX,
            s@ == join_lines(d.take(k as int)),
        decreases ls.len() - k,
    {
        let l = &ls[k];
        assert(v[k as int] == l@);
        assert(dedent_line_ok(v[k as int], m as int));
        if k > 0 {
            string_push(&mut s, '\n');
        }
        let n = byte_len(l);
        if n >= m {
            let (c, _acc) = chars_within_exec(l, m);
            push_range(&mut s, l, c, l.len());
        } else {
            let (t0, t1) = trim_bounds(l, 0, l.len());
            assert(l@.subrange(0, l.len() as int) =~= l@);
            push_range(&mut s, l, t0, t1);
        }
        proof {
            assert(d[k as int] == dedent_line(l@, m as int));
            assert(d.take(k + 1).drop_last() =~= d.take(k as int));
            if k == 0 {
                assert(s@ =~= d.take(1)[0]);
            } else {
                assert(s@ =~= join_lines(d.take(k as int)) + seq!['\n'] + d.take(k + 1).last());
            }
        }
        k += 1;
    }
    assert(d.take(ls.len() as int) =~= d);
    s
}

/// After a malformed task, the line where parsing resumes: the next line that
/// starts with a top-level keyword, or the line after a lone `}`.
pub fn skip_to_next_toplevel(lines: &Vec<Vec<char>>, from: usize) -> (r: usize)
    requires
        from <= lines.len(),
    ensures
        r == spec_skip_to_next_toplevel(lines_view(lines@), from as int),
{
    let ghost ls = lines_view(lines@);
    let mut i = from;
    while i < lines.len()
        invariant
            from <= i <= lines.len(),
            ls == lines_view(lines@),
            spec_skip_to_next_toplevel(ls, from as int) == spec_skip_to_next_toplevel(ls, i as int),
        decreases lines.len() - i,
    {
        let l = &lines[i];
        assert(ls[i as int] == l@);
        let (t0, t1) = trim_bounds(l, 0, l.len());
        assert(l@.subrange(0, l.len() as int) =~= l@);
        if starts_with_str(l, t0, t1, "task ") || starts_with_str(l, t0, t1, "export ")
            || starts_with_str(l, t0, t1, "alias ") || starts_with_str(l, t0, t1, "include ")
            || starts_with_str(l, t0, t1, "dotenv ") || starts_with_str(l, t0, t1, "@description")
            || starts_with_str(l, t0, t1, "@confirm") {
            return i;
        }
        if range_eq_str(l, t0, t1, "}") {
            return i + 1;
        }
        i += 1;
    }
    i
}

// ---------------------------------------------------------------------------
// Tasks
/// The items of the task header in the cursor `raw[c..b]`: parameters,
/// dependencies, parallel dependencies, and whether the header ends with `{`;
/// `None` where the end column of a dependency leaves `u32`.
fn parse_header(raw: &Vec<char>, c: usize, b: usize, line_idx: u32) -> (r: Option<Result<
    (Vec<Param>, Vec<Dependency>, Vec<Dependency>, bool),
    Diagnostic,
>>)
    requires
        c <= b <= raw.len(),
        utf8_len(raw@) <= usize::MAX,
    ensures
        r is None <==> header_panics(raw@.subrange(c as int, b as int), line_idx, raw@),
        r matches Some(res) ==> match (
            res,
            header_items(
                raw@.subrange(c as int, b as int),
                line_idx,
                raw@,
                HeaderModel {
                    params: Seq::empty(),
                    dependencies: Seq::empty(),
                    parallel_dependencies: Seq::empty(),
                    open_brace: false,
                },
            ),
        ) {
            (Ok((ps, ds, pds, brace)), Ok(h)) => params_view(ps@) == h.params && deps_view(ds@)
                == h.dependencies && deps_view(pds@) == h.parallel_dependencies && brace
                == h.open_brace,
            (Err(d), Err(sd)) => d@ == sd,
            _ => false,
        },
{
    let ghost start = HeaderModel {
        params: Seq::empty(),
        dependencies: Seq::empty(),
        parallel_dependencies: Seq::empty(),
        open_brace: false,
    };
    let mut params: Vec<Param> = Vec::new();
    let mut deps: Vec<Dependency> = Vec::new();
    let mut pdeps: Vec<Dependency> = Vec::new();
    let mut cur = c;
    proof {
        reveal_strlit("depends_parallel=[");
        reveal_strlit("depends=[");
        assert(params_view(params@) =~= Seq::<ParamModel>::empty());
        assert(deps_view(deps@) =~= Seq::<DependencyModel>::empty());
        assert(deps_view(pdeps@) =~= Seq::<DependencyModel>::empty());
    }
    loop
        invariant
            c <= cur <= b <= raw.len(),
            utf8_len(raw@) <= usize::MAX,
            header_panics(raw@.subrange(c as int, b as int), line_idx, raw@) == header_panics(
                raw@.subrange(cur as int, b as int),
                line_idx,
                raw@,
            ),
            "depends_parallel=["@.len() == 18,
            "depends=["@.len() == 9,
            start == (HeaderModel {
                params: Seq::empty(),
                dependencies: Seq::empty(),
                parallel_dependencies: Seq::empty(),
                open_brace: false,
            }),
            header_items(raw@.subrange(c as int, b as int), line_idx, raw@, start) == header_items(
                raw@.subrange(cur as int, b as int),
                line_idx,
                raw@,
                HeaderModel {
                    params: params_view(params@),
                    dependencies: deps_view(deps@),
                    parallel_dependencies: deps_view(pdeps@),
                    open_brace: false,
                },
            ),
        decreases b - cur,
    {
        let ghost cursor = raw@.subrange(cur as int, b as int);
        if cur == b {
            return Some(Ok((params, deps, pdeps, false)));
        }
        assert(cursor[0] == raw@[cur as int]);
        if raw[cur] == '{' {
            return Some(Ok((params, deps, pdeps, true)));
        }
        if raw[cur] == '[' {
            match parse_params(raw, cur, b, line_idx) {
                Ok((p, end)) => {
                    params = p;
                    proof {
                        lemma_first_in_props(cursor, CharClass::Is(']'));
                    }
                    let next = trim_start_bound(raw, end + 1, b);
                    assert(raw@.subrange(end + 1, b as int) =~= cursor.skip(end - cur + 1));
                    cur = next;
                },
                Err(d) => {
                    return Some(Err(d));
                },
            }
        } else if starts_with_str(raw, cur, b, "depends_parallel=[") {
            proof {
                lemma_utf8_len_bounds("depends_parallel=["@);
            }
            match parse_depends_prefixed(raw, cur, b, "depends_parallel=[", line_idx) {
                None => {
                    return None;
                },
                Some(Ok((ds, n))) => {
                    pdeps = ds;
                    proof {
                        lemma_first_in_props(cursor.skip(18), CharClass::Is(']'));
                    }
                    let next = trim_start_bound(raw, n, b);
                    assert(raw@.subrange(n as int, b as int) =~= cursor.skip(n - cur));
                    cur = next;
                },
                Some(Err(d)) => {
                    return Some(Err(d));
                },
            }
        } else if starts_with_str(raw, cur, b, "depends=[") {
            proof {
                lemma_utf8_len_bounds("depends=["@);
            }
            match parse_depends_prefixed(raw, cur, b, "depends=[", line_idx) {
                None => {
                    return None;
                },
                Some(Ok((ds, n))) => {
                    deps = ds;
                    proof {
                        lemma_first_in_props(cursor.skip(9), CharClass::Is(']'));
                    }
                    let next = trim_start_bound(raw, n, b);
                    assert(raw@.subrange(n as int, b as int) =~= cursor.skip(n - cur));
                    cur = next;
                },
                Some(Err(d)) => {
                    return Some(Err(d));
                },
            }
        } else {
            let mut message = string_of("unexpected token in task header: ");
            push_range(&mut message, raw, cur, b);
            return Some(Err(
                Diagnostic {
                    span: line_span_of(line_idx, raw),
                    message,
                    severity: DiagnosticSeverity::Error,
                },
            ));
        }
    }
}

/// Looks for the line that opens a task body, from line `i` on: `Ok` with
/// the line after it, `Err(true)` when another line comes first, `Err(false)`
/// when the document ends first.
fn find_open_brace_exec(lines: &Vec<Vec<char>>, i: usize) -> (r: Result<usize, bool>)
    requires
        i <= lines.len(),
    ensures
        match (r, find_open_brace(lines_view(lines@), i as int)) {
            (Ok(n), BraceSearch::Found(sn)) => n == sn,
            (Err(true), BraceSearch::Unexpected) => true,
            (Err(false), BraceSearch::Missing) => true,
            _ => false,
        },
{
    let ghost ls = lines_view(lines@);
    let mut k = i;
    while k < lines.len()
        invariant
            i <= k <= lines.len(),
            ls == lines_view(lines@),
            find_open_brace(ls, i as int) == find_open_brace(ls, k as int),
        decreases lines.len() - k,
    {
        let l = &lines[k];
        assert(ls[k as int] == l@);
        let (t0, t1) = trim_bounds(l, 0, l.len());
        assert(l@.subrange(0, l.len() as int) =~= l@);
        if t0 < t1 && l[t0] != '#' {
            assert(l@.subrange(t0 as int, t1 as int)[0] == l@[t0 as int]);
            if l[t0] == '{' {
                return Ok(k + 1);
            }
            return Err(true);
        }
        proof {
            if t0 < t1 {
                assert(l@.subrange(t0 as int, t1 as int)[0] == l@[t0 as int]);
            }
        }
        k += 1;
    }
    Err(false)
}

/// `message`, then `name`, then a closing quote.
fn named_message(message: &str, name: &String) -> (r: String)
    ensures
        r@ == named(message@, name@),
{
    let mut m = string_of(message);
    m.append(name.as_str());
    m.append("'");
    m
}

/// The name of the task on the line `raw`, the span of the name, and what
/// its header declares (parameters, dependencies, parallel dependencies, and
/// whether it ends with `{`); or a diagnostic; `None` where a column overflows.
#[verifier::rlimit(60)]
fn task_head(raw: &Vec<char>, idx: u32) -> (r: Option<
    Result<(String, Span, Vec<Param>, Vec<Dependency>, Vec<Dependency>, bool), Diagnostic>,
>)
    requires
        utf8_len(raw@) <= usize::MAX,
        starts_with(trim(raw@), "task "@),
    ensures
        match (r, spec_task_head(raw@, idx)) {
            (None, None) => true,
            (Some(Err(d)), Some(Err(sd))) => d@ == sd,
            (Some(Ok((n, ns, ps, ds, pds, brace))), Some(Ok((sn, sns, h)))) => n@ == sn && ns == sns
                && params_view(ps@) == h.params && deps_view(ds@) == h.dependencies && deps_view(pds@)
                == h.parallel_dependencies && brace == h.open_brace,
            _ => false,
        },
{
    let lead = indent_bytes_of(raw);
    let (a, b) = trim_bounds(raw, 0, raw.len());
    assert(raw@.subrange(0, raw.len() as int) =~= raw@);
    proof {
        reveal_strlit("task ");
        lemma_utf8_len_subrange(raw@, 0, a as int);
        lemma_utf8_len_subrange(raw@, a as int, b as int);
    }
    assert(raw@.subrange(a as int, b as int) == trim(raw@));
    assert(b - a >= 5);
    let r0 = a + 5;
    assert(raw@.subrange(r0 as int, b as int) =~= task_rest(raw@));
    let ne = find_class(raw, r0, b, CharClass::NotNameChar);
    proof {
        lemma_utf8_len_subrange(raw@, 0, r0 as int);
        assert(raw@.subrange(0, r0 as int) =~= raw@.subrange(0, a as int) + raw@.subrange(
            a as int,
            r0 as int,
        ));
        lemma_utf8_len_concat(raw@.subrange(0, a as int), raw@.subrange(a as int, r0 as int));
        lemma_utf8_len_bounds(raw@.subrange(a as int, r0 as int));
    }
    let tkc = lead + 5;
    let len = byte_len(raw);
    if ne == r0 {
        return Some(
            Err(error(Span::new(idx, tkc as u32, idx, len as u32), "expected task name")),
        );
    }
    let name = range_to_string(raw, r0, ne);
    assert(name@ =~= task_name(raw@));
    proof {
        lemma_utf8_len_subrange(raw@, r0 as int, ne as int);
    }
    let name_bytes = utf8_len_range(raw, r0, ne);
    let col32 = tkc as u32;
    let len32 = name_bytes as u32;
    if col32 as u64 + len32 as u64 > u32::MAX as u64 {
        return None;
    }
    let name_span = Span::new(idx, col32, idx, col32 + len32);
    let c = trim_start_bound(raw, ne, b);
    assert(raw@.subrange(ne as int, b as int) =~= task_rest(raw@).skip(ne - r0));
    assert(raw@.subrange(c as int, b as int) == task_header_text(raw@));
    match parse_header(raw, c, b, idx) {
        None => None,
        Some(Ok((params, dependencies, parallel_dependencies, brace))) => Some(
            Ok((name, name_span, params, dependencies, parallel_dependencies, brace)),
        ),
        Some(Err(d)) => Some(Err(d)),
    }
}

/// Parses the task whose header is on line `start`: the task and the index of
/// the line after it, or a diagnostic; `None` where the original panics (a
/// column or the brace count overflows, or dedenting the body would cut a
/// character in two).
#[verifier::rlimit(100)]
pub fn parse_task(lines: &Vec<Vec<char>>, start: usize) -> (r: Option<Result<(Task, usize), Diagnostic>>)
    requires
        start < lines.len(),
        lines_fit(lines_view(lines@)),
        starts_with(trim(lines@[start as int]@), "task "@),
    ensures
        match (r, spec_parse_task(lines_view(lines@), start as int)) {
            (None, TaskOutcome::Panics) => true,
            (Some(Ok((t, n))), TaskOutcome::Parsed(st, sn)) => t@ == st && n == sn,
            (Some(Err(d)), TaskOutcome::Failed(sd)) => d@ == sd,
            _ => false,
        },
{
    let ghost ls = lines_view(lines@);
    let raw = &lines[start];
    assert(ls[start as int] == raw@);
    let idx = start as u32;
    let lead = indent_bytes_of(raw);
    let (name, name_span, params, dependencies, parallel_dependencies, brace) = match task_head(raw, idx) {
        None => {
            return None;
        },
        Some(Ok(h)) => h,
        Some(Err(d)) => {
            return Some(Err(d));
        },
    };
    let body_start = if brace {
        start + 1
    } else {
        match find_open_brace_exec(lines, start + 1) {
            Ok(n) => n,
            Err(true) => {
                return Some(
                    Err(error(line_span_of(idx, raw), "expected '{' to open task body")),
                );
            },
            Err(false) => {
                let message = named_message("expected '{' for task '", &name);
                return Some(
                    Err(
                        Diagnostic {
                            span: line_span_of(idx, raw),
                            message,
                            severity: DiagnosticSeverity::Error,
                        },
                    ),
                );
            },
        }
    };
    proof {
        lemma_find_open_brace_bounds(ls, start + 1);
    }
    let (body_lines, next, depth) = match collect_body(lines, body_start) {
        None => {
            return None;
        },
        Some(x) => x,
    };
    proof {
        lemma_body_scan_bounds(ls, body_start as int, 1, Seq::empty());
    }
    if depth != 0 {
        let message = named_message("unclosed '{' for task '", &name);
        return Some(
            Err(
                Diagnostic {
                    span: Span::new(idx, lead as u32, (lines.len() - 1) as u32, 0),
                    message,
                    severity: DiagnosticSeverity::Error,
                },
            ),
        );
    }
    proof {
        lemma_body_lines_fit(ls, body_start as int, 1, Seq::empty());
        assert forall|k: int| 0 <= k < body_lines.len() implies utf8_len(
            #[trigger] body_lines@[k]@,
        ) <= usize::MAX by {
            assert(lines_view(body_lines@)[k] == body_lines@[k]@);
        }
    }
    if !dedent_is_safe(&body_lines) {
        return None;
    }
    let body = dedent_body(&body_lines);
    let last = &lines[next - 1];
    assert(ls[next - 1] == last@);
    let end_col = byte_len(last);
    let task = Task {
        name,
        name_span,
        description: None,
        confirm: None,
        params,
        dependencies,
        parallel_dependencies,
        body,
        span: Span::new(idx, lead as u32, (next - 1) as u32, end_col as u32),
    };
    Some(Ok((task, next)))
}

// ---------------------------------------------------------------------------
// Documents
/// The state of the parser between two lines.
struct ParserState {
    tasks: Vec<Task>,
    aliases: Vec<Alias>,
    exports: Vec<Export>,
    includes: Vec<Include>,
    dotenv: Vec<DotEnv>,
    diagnostics: Vec<Diagnostic>,
    pending_description: Option<(String, u32)>,
    pending_confirm: Option<(String, u32)>,
}

/// The model of a pending annotation.
spec fn pending_view(p: Option<(String, u32)>) -> Option<(Seq<char>, u32)> {
    match p {
        Some((s, l)) => Some((s@, l)),
        None => None,
    }
}

impl View for ParserState {
    type V = ParseState;

    closed spec fn view(&self) -> ParseState {
        ParseState {
            tasks: tasks_view(self.tasks@),
            aliases: aliases_view(self.aliases@),
            exports: exports_view(self.exports@),
            includes: includes_view(self.includes@),
            dotenv: dotenvs_view(self.dotenv@),
            diagnostics: diagnostics_view(self.diagnostics@),
            description: pending_view(self.pending_description),
            confirm: pending_view(self.pending_confirm),
        }
    }
}

/// The text of a pending annotation.
fn annotation_text_of(p: &Option<(String, u32)>) -> (r: Option<String>)
    ensures
        opt_view(r) == annotation_text(pending_view(*p)),
{
    match p {
        Some((s, _)) => Some(s.clone()),
        None => None,
    }
}

impl ParserState {
    fn new() -> (r: Self)
        ensures
            r@ == initial_state(),
    {
        let r = ParserState {
            tasks: Vec::new(),
            aliases: Vec::new(),
            exports: Vec::new(),
            includes: Vec::new(),
            dotenv: Vec::new(),
            diagnostics: Vec::new(),
            pending_description: None,
            pending_confirm: None,
        };
        assert(tasks_view(r.tasks@) =~= Seq::empty());
        assert(aliases_view(r.aliases@) =~= Seq::empty());
        assert(exports_view(r.exports@) =~= Seq::empty());
        assert(includes_view(r.includes@) =~= Seq::empty());
        assert(dotenvs_view(r.dotenv@) =~= Seq::empty());
        assert(diagnostics_view(r.diagnostics@) =~= Seq::empty());
        r
    }

    fn add_diagnostic(&mut self, d: Diagnostic)
        ensures
            final(self)@ == add_diagnostic(old(self)@, d@),
    {
        let ghost d0 = self.diagnostics@;
        self.diagnostics.push(d);
        assert(diagnostics_view(self.diagnostics@) =~= diagnostics_view(d0).push(d@));
    }

    /// Warns about pending annotations before a declaration that is not a task, and drops them.
    fn flush_annotations(&mut self, line_idx: u32)
        ensures
            final(self)@ == flush_annotations(old(self)@, line_idx),
    {
        if self.pending_description.is_some() || self.pending_confirm.is_some() {
            let w = match &self.pending_description {
                Some((_, l)) => *l,
                None => match &self.pending_confirm {
                    Some((_, l)) => *l,
                    None => line_idx,
                },
            };
            self.add_diagnostic(
                Diagnostic {
                    span: Span::new(w, 0, w, 0),
                    message: string_of("@description/@confirm must be followed by a task definition"),
                    severity: DiagnosticSeverity::Warning,
                },
            );
            self.pending_description = None;
            self.pending_confirm = None;
        }
    }

    /// Parses line `i`: the next line to read, or `None` where parsing panics.
    #[verifier::rlimit(100)]
    fn parse_line(&mut self, lines: &Vec<Vec<char>>, i: usize) -> (r: Option<usize>)
        requires
            i < lines.len(),
            lines_fit(lines_view(lines@)),
        ensures
            match (r, parse_step(lines_view(lines@), i as int, old(self)@)) {
                (Some(n), Some((sn, st))) => n == sn && final(self)@ == st,
                (None, None) => true,
                _ => false,
            },
    {
        let ghost ls = lines_view(lines@);
        let raw = &lines[i];
        assert(ls[i as int] == raw@);
        let idx = i as u32;
        let (a, b) = trim_bounds(raw, 0, raw.len());
        assert(raw@.subrange(0, raw.len() as int) =~= raw@);
        let ghost line = raw@.subrange(a as int, b as int);
        if a == b || raw[a] == '#' {
            assert(a < b ==> line[0] == raw@[a as int]);
            return Some(i + 1);
        }
        assert(line[0] == raw@[a as int]);
        proof {
            reveal_strlit("@description ");
            reveal_strlit("@confirm");
        }
        if starts_with_str(raw, a, b, "@description ") {
            let (d0, d1) = trim_bounds(raw, a + 13, b);
            assert(raw@.subrange(a + 13, b as int) =~= line.skip(13));
            self.pending_description = Some((range_to_string(raw, d0, d1), idx));
            return Some(i + 1);
        }
        if starts_with_str(raw, a, b, "@confirm") {
            let (m0, m1) = trim_bounds(raw, a + 8, b);
            assert(raw@.subrange(a + 8, b as int) =~= line.skip(8));
            let message = if m0 == m1 {
                string_of("Are you sure?")
            } else {
                range_to_string(raw, m0, m1)
            };
            self.pending_confirm = Some((message, idx));
            return Some(i + 1);
        }
        if starts_with_str(raw, a, b, "export ") {
            self.flush_annotations(idx);
            match parse_export(raw, idx) {
                Ok(e) => {
                    let ghost e0 = self.exports@;
                    self.exports.push(e);
                    assert(exports_view(self.exports@) =~= exports_view(e0).push(e@));
                },
                Err(d) => self.add_diagnostic(d),
            }
            return Some(i + 1);
        }
        if starts_with_str(raw, a, b, "alias ") {
            self.flush_annotations(idx);
            match parse_alias(raw, idx) {
                Ok(x) => {
                    let ghost x0 = self.aliases@;
                    self.aliases.push(x);
                    assert(aliases_view(self.aliases@) =~= aliases_view(x0).push(x@));
                },
                Err(d) => self.add_diagnostic(d),
            }
            return Some(i + 1);
        }
        if starts_with_str(raw, a, b, "include ") {
            self.flush_annotations(idx);
            match parse_include(raw, idx) {
                Ok(x) => {
                    let ghost x0 = self.includes@;
                    self.includes.push(x);
                    assert(includes_view(self.includes@) =~= includes_view(x0).push(x@));
                },
                Err(d) => self.add_diagnostic(d),
            }
            return Some(i + 1);
        }
        if starts_with_str(raw, a, b, "dotenv ") {
            self.flush_annotations(idx);
            match parse_dotenv(raw, idx) {
                Ok(x) => {
                    let ghost x0 = self.dotenv@;
                    self.dotenv.push(x);
                    assert(dotenvs_view(self.dotenv@) =~= dotenvs_view(x0).push(x@));
                },
                Err(d) => self.add_diagnostic(d),
            }
            return Some(i + 1);
        }
        if starts_with_str(raw, a, b, "task ") {
            match parse_task(lines, i) {
                None => {
                    return None;
                },
                Some(Ok((task, next))) => {
                    let mut task = task;
                    task.description = annotation_text_of(&self.pending_description);
                    task.confirm = annotation_text_of(&self.pending_confirm);
                    let ghost t0 = self.tasks@;
                    self.tasks.push(task);
                    assert(tasks_view(self.tasks@) =~= tasks_view(t0).push(task@));
                    self.pending_description = None;
                    self.pending_confirm = None;
                    return Some(next);
                },
                Some(Err(d)) => {
                    self.add_diagnostic(d);
                    self.pending_description = None;
                    self.pending_confirm = None;
                    return Some(skip_to_next_toplevel(lines, i + 1));
                },
            }
        }
        let mut message = string_of("unexpected line: ");
        push_range(&mut message, raw, a, b);
        self.add_diagnostic(
            Diagnostic {
                span: full_line_span_of(idx, raw),
                message,
                severity: DiagnosticSeverity::Error,
            },
        );
        Some(i + 1)
    }

    /// The syntax tree, with warnings for annotations that no task followed.
    fn finish(self) -> (r: Ast)
        ensures
            r@ == finish(self@),
    {
        let mut st = self;
        match &st.pending_description {
            Some((_, l)) => {
                let l = *l;
                st.add_diagnostic(
                    Diagnostic {
                        span: Span::new(l, 0, l, 0),
                        message: string_of("@description not followed by a task definition"),
                        severity: DiagnosticSeverity::Warning,
                    },
                );
            },
            None => {},
        }
        match &st.pending_confirm {
            Some((_, l)) => {
                let l = *l;
                st.add_diagnostic(
                    Diagnostic {
                        span: Span::new(l, 0, l, 0),
                        message: string_of("@confirm not followed by a task definition"),
                        severity: DiagnosticSeverity::Warning,
                    },
                );
            },
            None => {},
        }
        Ast {
            tasks: st.tasks,
            aliases: st.aliases,
            exports: st.exports,
            includes: st.includes,
            dotenv: st.dotenv,
            diagnostics: st.diagnostics,
        }
    }
}

/// Parses the lines of a document; `None` where parsing panics.
fn parse_lines(lines: &Vec<Vec<char>>) -> (r: Option<Ast>)
    requires
        lines_fit(lines_view(lines@)),
    ensures
        match (r, parse_from(lines_view(lines@), 0, initial_state())) {
            (Some(a), Some(sa)) => a@ == sa,
            (None, None) => true,
            _ => false,
        },
{
    let ghost ls = lines_view(lines@);
    let mut st = ParserState::new();
    let mut i: usize = 0;
    while i < lines.len()
        invariant
            i <= lines.len(),
            ls == lines_view(lines@),
            lines_fit(ls),
            parse_from(ls, 0, initial_state()) == parse_from(ls, i as int, st@),
        decreases lines.len() - i,
    {
        let ghost s0 = st@;
        proof {
            lemma_parse_step_advances(ls, i as int, s0);
        }
        match st.parse_line(lines, i) {
            None => {
                return None;
            },
            Some(n) => {
                i = n;
            },
        }
    }
    Some(st.finish())
}

/// Whether the byte length of a text fits a `usize`.
fn fits_usize(v: &Vec<char>) -> (r: bool)
    ensures
        r == (utf8_len(v@) <= usize::MAX),
{
    let mut n: u128 = 0;
    let mut i: usize = 0;
    assert(v@.take(0) =~= Seq::<char>::empty());
    while i < v.len()
        invariant
            i <= v.len(),
            n == utf8_len(v@.take(i as int)),
            n <= 4 * i,
        decreases v.len() - i,
    {
        proof {
            lemma_utf8_len_take_step(v@, i as int);
        }
        n = n + char_width(v[i]) as u128;
        i += 1;
    }
    assert(v@.take(v.len() as int) =~= v@);
    n <= usize::MAX as u128
}

/// Parses a Taskfile. Where the original panics (a column or the brace count
/// overflows its integer, or dedenting a task body would cut a character in
/// two) there is no result; `try_parse` checks for that.
pub fn parse(input: &str) -> (r: Ast)
    requires
        utf8_len(input@) <= usize::MAX,
        spec_parse(input@) is Some,
    ensures
        spec_parse(input@) == Some(r@),
{
    let chars = chars_of(input);
    let lines = split_lines(&chars);
    proof {
        lemma_lines_fit(input@);
    }
    match parse_lines(&lines) {
        Some(a) => a,
        None => {
            proof {
                assert(false);
            }
            ParserState::new().finish()
        },
    }
}

/// Parses a Taskfile: `None` where the original panics (see `parse`), and for
/// a text whose byte length does not fit a `usize` (no `str` has one).
pub fn try_parse(input: &str) -> (r: Option<Ast>)
    ensures
        match r {
            Some(a) => utf8_len(input@) <= usize::MAX && spec_parse(input@) == Some(a@),
            None => utf8_len(input@) > usize::MAX || spec_parse(input@) is None,
        },
{
    let chars = chars_of(input);
    if !fits_usize(&chars) {
        return None;
    }
    let lines = split_lines(&chars);
    proof {
        lemma_lines_fit(input@);
    }
    parse_lines(&lines)
}

} // verus!
