//! What parsing a Taskfile yields, stated over sequences of characters.
//!
//! The functions here say, line by line, what the parser of this crate
//! returns; the executable parser in `parser.rs` is proved to return it.
//! A Taskfile is read line by line (`lines_of`). Blank lines and lines whose
//! first non-blank character is `#` are skipped. A line that starts with
//! `@description ` or `@confirm` sets an annotation for the next task; lines
//! starting with `export `, `alias `, `include ` and `dotenv ` declare one
//! item each; a line starting with `task ` opens a task, whose header may hold
//! `[params]`, `depends=[..]` and `depends_parallel=[..]`, and whose body runs
//! from `{` to the matching `}`. Any other line is an error.
use vstd::prelude::*;

use crate::ast::{
    AliasModel, AstModel, DependencyModel, DiagnosticModel, DiagnosticSeverity, ExportModel, ParamModel,
    PathModel, Span, TaskModel,
};
use crate::text::{
    find_seq, first_in, join_lines, lemma_last_in_props, lemma_utf8_len_subrange, lines_of, last_in, leading_ws, lemma_first_in_props, starts_with, trim,
    trim_start, utf8_len, utf8_width, CharClass,
};

verus! {

/// An error diagnostic.
pub open spec fn error_at(span: Span, message: Seq<char>) -> DiagnosticModel {
    DiagnosticModel { span, message, severity: DiagnosticSeverity::Error }
}

/// A warning diagnostic.
pub open spec fn warning_at(span: Span, message: Seq<char>) -> DiagnosticModel {
    DiagnosticModel { span, message, severity: DiagnosticSeverity::Warning }
}

/// The column, in bytes, of the first non-blank character of a line.
pub open spec fn indent_bytes(raw: Seq<char>) -> int {
    utf8_len(raw.take(leading_ws(raw))) as int
}

/// The span of a whole line: from its first non-blank character to its end.
pub open spec fn line_span(idx: u32, raw: Seq<char>) -> Span {
    Span {
        start_line: idx,
        start_col: indent_bytes(raw) as u32,
        end_line: idx,
        end_col: utf8_len(raw) as u32,
    }
}

/// The span from the start of a line to its end.
pub open spec fn full_line_span(idx: u32, raw: Seq<char>) -> Span {
    Span { start_line: idx, start_col: 0, end_line: idx, end_col: utf8_len(raw) as u32 }
}

/// A value without surrounding whitespace, and without one pair of enclosing
/// quotes (`"..."` or `'...'`) if it has them. (A text of at least two bytes
/// that begins and ends with an ASCII quote has at least two characters.)
pub open spec fn spec_unquote(s: Seq<char>) -> Seq<char> {
    let t = trim(s);
    if t.len() >= 2 && ((t[0] == '"' && t.last() == '"') || (t[0] == '\'' && t.last() == '\'')) {
        t.subrange(1, t.len() - 1)
    } else {
        t
    }
}

/// A `KEYWORD name=value` line, whose keyword (with its space) is `kw_len` characters long:
/// the trimmed name and the unquoted value, or a diagnostic.
pub open spec fn spec_parse_assignment(
    raw: Seq<char>,
    idx: u32,
    kw_len: int,
    no_eq_message: Seq<char>,
    empty_message: Seq<char>,
) -> Result<(Seq<char>, Seq<char>), DiagnosticModel> {
    let rest = trim(trim(raw).skip(kw_len));
    let eq = first_in(rest, CharClass::Is('='));
    if eq >= rest.len() {
        Err(error_at(line_span(idx, raw), no_eq_message))
    } else {
        let key = trim(rest.take(eq));
        let value = spec_unquote(trim(rest.skip(eq + 1)));
        if key.len() == 0 {
            Err(error_at(line_span(idx, raw), empty_message))
        } else {
            Ok((key, value))
        }
    }
}

/// An `export KEY=value` line.
pub open spec fn spec_parse_export(raw: Seq<char>, idx: u32) -> Result<ExportModel, DiagnosticModel> {
    match spec_parse_assignment(
        raw,
        idx,
        "export "@.len() as int,
        "expected '=' in export statement"@,
        "empty export key"@,
    ) {
        Ok((key, value)) => Ok(ExportModel { key, value, span: line_span(idx, raw) }),
        Err(d) => Err(d),
    }
}

/// An `alias name=value` line.
pub open spec fn spec_parse_alias(raw: Seq<char>, idx: u32) -> Result<AliasModel, DiagnosticModel> {
    match spec_parse_assignment(
        raw,
        idx,
        "alias "@.len() as int,
        "expected '=' in alias statement"@,
        "empty alias name"@,
    ) {
        Ok((name, value)) => Ok(AliasModel { name, value, span: line_span(idx, raw) }),
        Err(d) => Err(d),
    }
}

/// A `KEYWORD path` line, whose keyword (with its space) is `kw_len` characters long.
pub open spec fn spec_parse_path(
    raw: Seq<char>,
    idx: u32,
    kw_len: int,
    empty_message: Seq<char>,
) -> Result<PathModel, DiagnosticModel> {
    let path = spec_unquote(trim(trim(raw).skip(kw_len)));
    if path.len() == 0 {
        Err(error_at(line_span(idx, raw), empty_message))
    } else {
        Ok(PathModel { path, span: line_span(idx, raw) })
    }
}

/// An `include path` line.
pub open spec fn spec_parse_include(raw: Seq<char>, idx: u32) -> Result<PathModel, DiagnosticModel> {
    spec_parse_path(raw, idx, "include "@.len() as int, "empty include path"@)
}

/// A `dotenv path` line.
pub open spec fn spec_parse_dotenv(raw: Seq<char>, idx: u32) -> Result<PathModel, DiagnosticModel> {
    spec_parse_path(raw, idx, "dotenv "@.len() as int, "empty dotenv path"@)
}

// ---------------------------------------------------------------------------
// Task headers
/// A quoted default value from index `p` of `inner`, after its opening quote:
/// the value, where `\` takes the next character literally, and the index
/// after the closing quote (or the end of `inner`).
pub open spec fn quoted_value(inner: Seq<char>, p: int, escaped: bool) -> (Seq<char>, int)
    decreases inner.len() - p,
{
    if p < 0 || p >= inner.len() {
        (Seq::empty(), inner.len() as int)
    } else {
        let ch = inner[p];
        if escaped {
            let r = quoted_value(inner, p + 1, false);
            (seq![ch] + r.0, r.1)
        } else if ch == '\\' {
            quoted_value(inner, p + 1, true)
        } else if ch == '"' {
            (Seq::empty(), p + 1)
        } else {
            let r = quoted_value(inner, p + 1, false);
            (seq![ch] + r.0, r.1)
        }
    }
}

/// `quoted_value` ends after where it starts and within `inner`.
pub proof fn lemma_quoted_value_bounds(inner: Seq<char>, p: int, escaped: bool)
    requires
        0 <= p,
    ensures
        p <= quoted_value(inner, p, escaped).1 <= inner.len() || (p > inner.len()
            && quoted_value(inner, p, escaped).1 == inner.len()),
    decreases inner.len() - p,
{
    if p < inner.len() {
        lemma_quoted_value_bounds(inner, p + 1, false);
        lemma_quoted_value_bounds(inner, p + 1, true);
    }
}

/// The parameter of `inner` (the text between `[` and `]`) that starts at or
/// after index `k`, and the index after it; `None` where the list ends. A
/// parameter is a name up to `=` or whitespace, optionally followed by `=` and
/// a default value: a quoted string, or text up to whitespace. `base` is the
/// byte column of `inner` in the line.
pub open spec fn param_at(inner: Seq<char>, k: int, base: int, idx: u32) -> Option<(ParamModel, int)> {
    let s = k + first_in(inner.skip(k), CharClass::NotWhitespace);
    let ne = s + first_in(inner.skip(s), CharClass::ParamNameEnd);
    if s >= inner.len() || ne == s {
        None
    } else {
        let name = inner.subrange(s, ne);
        let j = ne + 1;
        let e = j + first_in(inner.skip(j), CharClass::Whitespace);
        let q = quoted_value(inner, j + 1, false);
        let (default, after) = if ne < inner.len() && inner[ne] == '=' {
            if j < inner.len() && inner[j] == '"' {
                (Some(q.0), q.1)
            } else {
                (Some(inner.subrange(j, e)), e)
            }
        } else {
            (None, ne)
        };
        let span = Span {
            start_line: idx,
            start_col: (base + utf8_len(inner.take(s))) as u32,
            end_line: idx,
            end_col: (base + utf8_len(inner.take(after))) as u32,
        };
        Some((ParamModel { name, default, span }, after))
    }
}

/// A parameter ends after where the scan for it starts, and within `inner`.
pub proof fn lemma_param_at_advances(inner: Seq<char>, k: int, base: int, idx: u32)
    requires
        0 <= k < inner.len(),
    ensures
        param_at(inner, k, base, idx) matches Some((_, a)) ==> k < a <= inner.len(),
{
    let s = k + first_in(inner.skip(k), CharClass::NotWhitespace);
    lemma_first_in_props(inner.skip(k), CharClass::NotWhitespace);
    if s < inner.len() {
        let ne = s + first_in(inner.skip(s), CharClass::ParamNameEnd);
        lemma_first_in_props(inner.skip(s), CharClass::ParamNameEnd);
        let j = ne + 1;
        if j <= inner.len() {
            lemma_first_in_props(inner.skip(j), CharClass::Whitespace);
        }
        lemma_quoted_value_bounds(inner, j + 1, false);
    }
}

/// The parameters in `inner` from index `k` on.
pub open spec fn params_from(inner: Seq<char>, k: int, base: int, idx: u32) -> Seq<ParamModel>
    decreases inner.len() - k,
{
    if k < 0 || k >= inner.len() {
        Seq::empty()
    } else {
        match param_at(inner, k, base, idx) {
            None => Seq::empty(),
            Some((p, after)) => {
                proof {
                    lemma_param_at_advances(inner, k, base, idx);
                }
                seq![p] + params_from(inner, after, base, idx)
            },
        }
    }
}

/// A parameter list at the start of `cursor` (which begins with `[`): the
/// parameters and the index of the closing `]`, or a diagnostic.
pub open spec fn spec_parse_params(cursor: Seq<char>, idx: u32, raw: Seq<char>) -> Result<
    (Seq<ParamModel>, int),
    DiagnosticModel,
> {
    let end = first_in(cursor, CharClass::Is(']'));
    if end >= cursor.len() {
        Err(error_at(full_line_span(idx, raw), "unterminated parameter list"@))
    } else {
        let base: int = match find_seq(raw, cursor) {
            Some(p) => utf8_len(raw.take(p)) as int + 1,
            None => 0,
        };
        Ok((params_from(cursor.subrange(1, end), 0, base, idx), end))
    }
}

/// The comma-separated piece of `inner` that starts at index `o`: the
/// dependency it names, if it is not blank, and the index where it ends.
/// `base` is the byte column of `inner` in the line.
pub open spec fn dep_piece(inner: Seq<char>, o: int, base: int, idx: u32) -> (
    Option<DependencyModel>,
    int,
) {
    let e = o + first_in(inner.skip(o), CharClass::Is(','));
    let piece = inner.subrange(o, e);
    let name = trim(piece);
    if name.len() == 0 {
        (None, e)
    } else {
        let start = base + utf8_len(inner.take(o)) + utf8_len(piece.take(leading_ws(piece)));
        (
            Some(
                DependencyModel {
                    name,
                    span: Span {
                        start_line: idx,
                        start_col: start as u32,
                        end_line: idx,
                        end_col: ((start as u32) + (utf8_len(name) as u32)) as u32,
                    },
                },
            ),
            e,
        )
    }
}

/// Whether the end column of the dependency in the piece at index `o` leaves
/// `u32`: it is the start column plus the name's length, added as `u32`s.
pub open spec fn dep_overflows(inner: Seq<char>, o: int, base: int) -> bool {
    let e = o + first_in(inner.skip(o), CharClass::Is(','));
    let piece = inner.subrange(o, e);
    let name = trim(piece);
    let start = base + utf8_len(inner.take(o)) + utf8_len(piece.take(leading_ws(piece)));
    name.len() > 0 && (start as u32) + (utf8_len(name) as u32) > u32::MAX
}

/// Whether some dependency of the list `inner`, from index `o` on, has an end
/// column that leaves `u32`.
pub open spec fn deps_overflow(inner: Seq<char>, o: int, base: int) -> bool
    decreases inner.len() - o,
{
    if o < 0 || o > inner.len() {
        false
    } else {
        let e = o + first_in(inner.skip(o), CharClass::Is(','));
        proof {
            lemma_first_in_props(inner.skip(o), CharClass::Is(','));
        }
        dep_overflows(inner, o, base) || (e < inner.len() && deps_overflow(inner, e + 1, base))
    }
}

/// The dependencies of the comma-separated list `inner` from index `o` on.
pub open spec fn deps_from(inner: Seq<char>, o: int, base: int, idx: u32) -> Seq<DependencyModel>
    decreases inner.len() - o,
{
    if o < 0 || o > inner.len() {
        Seq::empty()
    } else {
        let (d, e) = dep_piece(inner, o, base, idx);
        proof {
            lemma_first_in_props(inner.skip(o), CharClass::Is(','));
        }
        let here = match d {
            Some(x) => seq![x],
            None => Seq::empty(),
        };
        if e >= inner.len() {
            here
        } else {
            here + deps_from(inner, e + 1, base, idx)
        }
    }
}

/// A dependency list at the start of `cursor`, which begins with `prefix`
/// (`depends=[` or `depends_parallel=[`): the dependencies and the index in
/// `cursor` after the closing `]`, or a diagnostic.
pub open spec fn spec_parse_depends(
    cursor: Seq<char>,
    prefix: Seq<char>,
    idx: u32,
    raw: Seq<char>,
) -> Result<(Seq<DependencyModel>, int), DiagnosticModel> {
    let rest = cursor.skip(prefix.len() as int);
    let end = first_in(rest, CharClass::Is(']'));
    if end >= rest.len() {
        Err(error_at(full_line_span(idx, raw), "unterminated depends list"@))
    } else {
        Ok((deps_from(rest.take(end), 0, depends_base(prefix, raw), idx), prefix.len() + end + 1))
    }
}

/// The byte column where the list after `prefix` starts in the line: after
/// the first occurrence of `prefix` (or after the prefix's length when it does
/// not occur).
pub open spec fn depends_base(prefix: Seq<char>, raw: Seq<char>) -> int {
    let at: int = match find_seq(raw, prefix) {
        Some(p) => utf8_len(raw.take(p)) as int,
        None => 0,
    };
    at + utf8_len(prefix) as int
}

/// Whether a closed dependency list at the start of `cursor` has a dependency
/// whose end column leaves `u32` (where the original's `u32` addition overflows).
pub open spec fn depends_overflow(cursor: Seq<char>, prefix: Seq<char>, raw: Seq<char>) -> bool {
    let rest = cursor.skip(prefix.len() as int);
    let end = first_in(rest, CharClass::Is(']'));
    end < rest.len() && deps_overflow(rest.take(end), 0, depends_base(prefix, raw))
}

/// What a task header declares after the task's name.
pub struct HeaderModel {
    pub params: Seq<ParamModel>,
    pub dependencies: Seq<DependencyModel>,
    pub parallel_dependencies: Seq<DependencyModel>,
    /// Whether the header ends with `{`.
    pub open_brace: bool,
}

/// The parts of a task header in `cursor`, in any order, up to `{` or the end
/// of the line; a later list of the same kind replaces an earlier one.
pub open spec fn header_items(cursor: Seq<char>, idx: u32, raw: Seq<char>, h: HeaderModel) -> Result<
    HeaderModel,
    DiagnosticModel,
>
    decreases cursor.len(),
{
    if cursor.len() == 0 {
        Ok(h)
    } else if cursor[0] == '{' {
        Ok(HeaderModel { open_brace: true, ..h })
    } else if cursor[0] == '[' {
        match spec_parse_params(cursor, idx, raw) {
            Ok((params, end)) => {
                let next = trim_start(cursor.skip(end + 1));
                proof {
                    lemma_first_in_props(cursor, CharClass::Is(']'));
                    lemma_first_in_props(cursor.skip(end + 1), CharClass::NotWhitespace);
                }
                header_items(next, idx, raw, HeaderModel { params, ..h })
            },
            Err(d) => Err(d),
        }
    } else if starts_with(cursor, "depends_parallel=["@) {
        match spec_parse_depends(cursor, "depends_parallel=["@, idx, raw) {
            Ok((deps, n)) => {
                let next = trim_start(cursor.skip(n));
                proof {
                    lemma_first_in_props(
                        cursor.skip("depends_parallel=["@.len() as int),
                        CharClass::Is(']'),
                    );
                    lemma_first_in_props(cursor.skip(n), CharClass::NotWhitespace);
                }
                header_items(next, idx, raw, HeaderModel { parallel_dependencies: deps, ..h })
            },
            Err(d) => Err(d),
        }
    } else if starts_with(cursor, "depends=["@) {
        match spec_parse_depends(cursor, "depends=["@, idx, raw) {
            Ok((deps, n)) => {
                let next = trim_start(cursor.skip(n));
                proof {
                    lemma_first_in_props(cursor.skip("depends=["@.len() as int), CharClass::Is(']'));
                    lemma_first_in_props(cursor.skip(n), CharClass::NotWhitespace);
                }
                header_items(next, idx, raw, HeaderModel { dependencies: deps, ..h })
            },
            Err(d) => Err(d),
        }
    } else {
        Err(error_at(line_span(idx, raw), "unexpected token in task header: "@ + cursor))
    }
}

/// Whether reading the task header in `cursor` reaches a dependency list with
/// an end column that leaves `u32` before any error or `{`.
pub open spec fn header_panics(cursor: Seq<char>, idx: u32, raw: Seq<char>) -> bool
    decreases cursor.len(),
{
    if cursor.len() == 0 || cursor[0] == '{' {
        false
    } else if cursor[0] == '[' {
        match spec_parse_params(cursor, idx, raw) {
            Ok((_, end)) => {
                proof {
                    lemma_first_in_props(cursor, CharClass::Is(']'));
                    lemma_first_in_props(cursor.skip(end + 1), CharClass::NotWhitespace);
                }
                header_panics(trim_start(cursor.skip(end + 1)), idx, raw)
            },
            Err(_) => false,
        }
    } else if starts_with(cursor, "depends_parallel=["@) {
        depends_overflow(cursor, "depends_parallel=["@, raw) || match spec_parse_depends(
            cursor,
            "depends_parallel=["@,
            idx,
            raw,
        ) {
            Ok((_, n)) => {
                proof {
                    lemma_first_in_props(
                        cursor.skip("depends_parallel=["@.len() as int),
                        CharClass::Is(']'),
                    );
                    lemma_first_in_props(cursor.skip(n), CharClass::NotWhitespace);
                }
                header_panics(trim_start(cursor.skip(n)), idx, raw)
            },
            Err(_) => false,
        }
    } else if starts_with(cursor, "depends=["@) {
        depends_overflow(cursor, "depends=["@, raw) || match spec_parse_depends(
            cursor,
            "depends=["@,
            idx,
            raw,
        ) {
            Ok((_, n)) => {
                proof {
                    lemma_first_in_props(cursor.skip("depends=["@.len() as int), CharClass::Is(']'));
                    lemma_first_in_props(cursor.skip(n), CharClass::NotWhitespace);
                }
                header_panics(trim_start(cursor.skip(n)), idx, raw)
            },
            Err(_) => false,
        }
    } else {
        false
    }
}

/// Where the `{` of a task whose header has none stands.
pub enum BraceSearch {
    /// On a later line; the body starts at the given line.
    Found(int),
    /// A line that is neither blank, a comment nor `{` comes first.
    Unexpected,
    /// The document ends first.
    Missing,
}

/// Looks for the line that opens a task body, from line `i` on.
pub open spec fn find_open_brace(lines: Seq<Seq<char>>, i: int) -> BraceSearch
    decreases lines.len() - i,
{
    if i < 0 || i >= lines.len() {
        BraceSearch::Missing
    } else {
        let l = trim(lines[i]);
        if l.len() == 0 || l[0] == '#' {
            find_open_brace(lines, i + 1)
        } else if l[0] == '{' {
            BraceSearch::Found(i + 1)
        } else {
            BraceSearch::Unexpected
        }
    }
}

// ---------------------------------------------------------------------------
// Braces
/// The state of the brace counter after a prefix of a line.
pub struct BraceScan {
    pub in_single: bool,
    pub in_double: bool,
    pub prev: char,
    pub delta: int,
    /// A `#` outside quotes ended the scan.
    pub stopped: bool,
}

/// One character of the brace counter: `#` outside quotes ends the line,
/// quotes not preceded by `\` open and close strings, and braces outside
/// strings count.
pub open spec fn brace_step(st: BraceScan, ch: char) -> BraceScan {
    if st.stopped {
        st
    } else if !st.in_single && !st.in_double && ch == '#' {
        BraceScan { stopped: true, ..st }
    } else if ch == '\'' && !st.in_double && st.prev != '\\' {
        BraceScan { in_single: !st.in_single, prev: ch, ..st }
    } else if ch == '"' && !st.in_single && st.prev != '\\' {
        BraceScan { in_double: !st.in_double, prev: ch, ..st }
    } else if !st.in_single && !st.in_double && ch == '{' {
        BraceScan { delta: st.delta + 1, prev: ch, ..st }
    } else if !st.in_single && !st.in_double && ch == '}' {
        BraceScan { delta: st.delta - 1, prev: ch, ..st }
    } else {
        BraceScan { prev: ch, ..st }
    }
}

/// The brace counter after the first `n` characters of `l`.
pub open spec fn brace_scan(l: Seq<char>, n: int) -> BraceScan
    decreases n,
{
    if n <= 0 || l.len() == 0 {
        BraceScan { in_single: false, in_double: false, prev: '\0', delta: 0, stopped: false }
    } else if n > l.len() {
        brace_scan(l, l.len() as int)
    } else {
        brace_step(brace_scan(l, n - 1), l[n - 1])
    }
}

/// How much a line changes the brace depth: opening minus closing braces outside strings and comments.
pub open spec fn brace_delta(l: Seq<char>) -> int {
    brace_scan(l, l.len() as int).delta
}

/// Counting the braces of `l` from `depth` keeps the count within `i32` at
/// every character (where it would leave it, the `i32` counter overflows).
pub open spec fn braces_fit(l: Seq<char>, depth: int) -> bool {
    forall|n: int| 0 <= n <= l.len() ==> i32::MIN <= #[trigger] brace_scan(l, n).delta + depth <= i32::MAX
}

// ---------------------------------------------------------------------------
// Task bodies
/// The lines of a task body from line `i` on, at brace depth `depth`: the
/// body lines, the line after the closing one, and the final depth (0 when
/// the body was closed). On the closing line, text before its last `}` is
/// kept when it is not blank.
pub open spec fn body_scan(lines: Seq<Seq<char>>, i: int, depth: int, acc: Seq<Seq<char>>) -> (
    Seq<Seq<char>>,
    int,
    int,
)
    decreases lines.len() - i,
{
    if i < 0 || i >= lines.len() {
        (acc, i, depth)
    } else {
        let l = lines[i];
        let d = depth + brace_delta(l);
        if d == 0 {
            let p = last_in(l, CharClass::Is('}'));
            let kept = if trim(l) != "}"@ && p >= 0 && trim(l.take(p)).len() > 0 {
                acc.push(l.take(p))
            } else {
                acc
            };
            (kept, i + 1, 0)
        } else {
            body_scan(lines, i + 1, d, acc.push(l))
        }
    }
}

/// Whether the brace count overflows its `i32` while the body of a task is
/// read from line `i` on at depth `depth`.
pub open spec fn body_overflows(lines: Seq<Seq<char>>, i: int, depth: int) -> bool
    decreases lines.len() - i,
{
    if i < 0 || i >= lines.len() {
        false
    } else if !braces_fit(lines[i], depth) {
        true
    } else {
        let d = depth + brace_delta(lines[i]);
        if d == 0 {
            false
        } else {
            body_overflows(lines, i + 1, d)
        }
    }
}

/// The indentation of a line in bytes.
pub open spec fn indent_of(l: Seq<char>) -> int {
    utf8_len(l.take(leading_ws(l))) as int
}

/// The least indentation of the non-blank lines, if there is one.
pub open spec fn min_indent(ls: Seq<Seq<char>>) -> Option<int>
    decreases ls.len(),
{
    if ls.len() == 0 {
        None
    } else {
        let r = min_indent(ls.drop_last());
        let l = ls.last();
        if trim(l).len() == 0 {
            r
        } else {
            match r {
                None => Some(indent_of(l)),
                Some(m) => Some(
                    if indent_of(l) < m {
                        indent_of(l)
                    } else {
                        m
                    },
                ),
            }
        }
    }
}

/// How many bytes are removed from the front of each body line.
pub open spec fn dedent_amount(ls: Seq<Seq<char>>) -> int {
    match min_indent(ls) {
        Some(m) => m,
        None => 0,
    }
}

/// The number of characters of `l` that the first `m` bytes reach into
/// (the characters whose first byte lies before byte `m`).
pub open spec fn chars_within(l: Seq<char>, m: int) -> int
    decreases l.len(),
{
    if m <= 0 || l.len() == 0 {
        0
    } else {
        1 + chars_within(l.drop_first(), m - utf8_width(l[0]))
    }
}

/// A body line without its first `m` bytes, or trimmed when it is shorter.
pub open spec fn dedent_line(l: Seq<char>, m: int) -> Seq<char> {
    if utf8_len(l) >= m {
        l.skip(chars_within(l, m))
    } else {
        trim(l)
    }
}

/// Removing the first `m` bytes of `l` does not cut a character in two
/// (where it would, slicing the `str` panics).
pub open spec fn dedent_line_ok(l: Seq<char>, m: int) -> bool {
    utf8_len(l) >= m ==> utf8_len(l.take(chars_within(l, m))) == m
}

/// Dedenting the body lines cuts no character in two.
pub open spec fn dedent_ok(ls: Seq<Seq<char>>) -> bool {
    forall|i: int| 0 <= i < ls.len() ==> dedent_line_ok(#[trigger] ls[i], dedent_amount(ls))
}

/// The dedented lines of a body.
pub open spec fn dedented_lines(ls: Seq<Seq<char>>) -> Seq<Seq<char>> {
    Seq::new(ls.len(), |i: int| dedent_line(ls[i], dedent_amount(ls)))
}

/// A task body: its lines without their common indentation, joined by `\n`.
pub open spec fn spec_dedent_body(ls: Seq<Seq<char>>) -> Seq<char> {
    join_lines(dedented_lines(ls))
}

// ---------------------------------------------------------------------------
// Tasks
/// The outcome of parsing a task that starts at a line.
pub enum TaskOutcome {
    /// The task and the index of the line after it.
    Parsed(TaskModel, int),
    /// The task is malformed.
    Failed(DiagnosticModel),
    /// The original panics: a column or the brace count overflows its integer,
    /// or dedenting the body would cut a character in two.
    Panics,
}

/// The text of a task line after `task `.
pub open spec fn task_rest(raw: Seq<char>) -> Seq<char> {
    trim(raw).skip("task "@.len() as int)
}

/// The name of the task on a `task ` line.
pub open spec fn task_name(raw: Seq<char>) -> Seq<char> {
    task_rest(raw).take(first_in(task_rest(raw), CharClass::NotNameChar))
}

/// The byte column where the task name starts.
pub open spec fn task_name_col(raw: Seq<char>) -> int {
    indent_bytes(raw) + "task "@.len()
}

/// The text of a task line after the task name and the blanks after it.
pub open spec fn task_header_text(raw: Seq<char>) -> Seq<char> {
    let rest = task_rest(raw);
    trim_start(rest.skip(first_in(rest, CharClass::NotNameChar)))
}

/// Whether the end column of the task's name leaves `u32`: it is the name's
/// column plus its length, added as `u32`s.
pub open spec fn name_overflows(raw: Seq<char>) -> bool {
    (task_name_col(raw) as u32) + (utf8_len(task_name(raw)) as u32) > u32::MAX
}

/// The header after the task name.
pub open spec fn task_header(raw: Seq<char>, idx: u32) -> Result<HeaderModel, DiagnosticModel> {
    header_items(
        task_header_text(raw),
        idx,
        raw,
        HeaderModel {
            params: Seq::empty(),
            dependencies: Seq::empty(),
            parallel_dependencies: Seq::empty(),
            open_brace: false,
        },
    )
}

/// `message` with the task's name in quotes after it.
pub open spec fn named(message: Seq<char>, name: Seq<char>) -> Seq<char> {
    message + name + "'"@
}

/// The name of a task, the span of its name and its header, from the task's
/// line; or a diagnostic; `None` where a column overflows.
pub open spec fn spec_task_head(raw: Seq<char>, idx: u32) -> Option<
    Result<(Seq<char>, Span, HeaderModel), DiagnosticModel>,
> {
    let name = task_name(raw);
    if name.len() == 0 {
        Some(
            Err(
                error_at(
                    Span {
                        start_line: idx,
                        start_col: task_name_col(raw) as u32,
                        end_line: idx,
                        end_col: utf8_len(raw) as u32,
                    },
                    "expected task name"@,
                ),
            ),
        )
    } else if name_overflows(raw) || header_panics(task_header_text(raw), idx, raw) {
        None
    } else {
        match task_header(raw, idx) {
            Err(d) => Some(Err(d)),
            Ok(h) => Some(
                Ok(
                    (
                        name,
                        Span {
                            start_line: idx,
                            start_col: task_name_col(raw) as u32,
                            end_line: idx,
                            end_col: ((task_name_col(raw) as u32) + (utf8_len(name) as u32)) as u32,
                        },
                        h,
                    ),
                ),
            ),
        }
    }
}

/// The task whose header is on line `start` (a line that begins with `task `).
pub open spec fn spec_parse_task(lines: Seq<Seq<char>>, start: int) -> TaskOutcome {
    let idx = start as u32;
    let raw = lines[start];
    match spec_task_head(raw, idx) {
        None => TaskOutcome::Panics,
        Some(Err(d)) => TaskOutcome::Failed(d),
        Some(Ok((name, name_span, h))) => {
                let opening = if h.open_brace {
                    BraceSearch::Found(start + 1)
                } else {
                    find_open_brace(lines, start + 1)
                };
                match opening {
                    BraceSearch::Unexpected => TaskOutcome::Failed(
                        error_at(line_span(idx, raw), "expected '{' to open task body"@),
                    ),
                    BraceSearch::Missing => TaskOutcome::Failed(
                        error_at(line_span(idx, raw), named("expected '{' for task '"@, name)),
                    ),
                    BraceSearch::Found(b) => {
                        let scan = body_scan(lines, b, 1, Seq::empty());
                        if body_overflows(lines, b, 1) {
                            TaskOutcome::Panics
                        } else if scan.2 != 0 {
                            TaskOutcome::Failed(
                                error_at(
                                    Span {
                                        start_line: idx,
                                        start_col: indent_bytes(raw) as u32,
                                        end_line: (lines.len() - 1) as u32,
                                        end_col: 0,
                                    },
                                    named("unclosed '{' for task '"@, name),
                                ),
                            )
                        } else if !dedent_ok(scan.0) {
                            TaskOutcome::Panics
                        } else {
                            let next = scan.1;
                            TaskOutcome::Parsed(
                                TaskModel {
                                    name,
                                    name_span,
                                    description: None,
                                    confirm: None,
                                    params: h.params,
                                    dependencies: h.dependencies,
                                    parallel_dependencies: h.parallel_dependencies,
                                    body: spec_dedent_body(scan.0),
                                    span: Span {
                                        start_line: idx,
                                        start_col: indent_bytes(raw) as u32,
                                        end_line: (next - 1) as u32,
                                        end_col: utf8_len(lines[next - 1]) as u32,
                                    },
                                },
                                next,
                            )
                        }
                    },
                }
        },
    }
}

/// Whether a trimmed line starts with a top-level keyword.
pub open spec fn is_toplevel_start(t: Seq<char>) -> bool {
    ||| starts_with(t, "task "@)
    ||| starts_with(t, "export "@)
    ||| starts_with(t, "alias "@)
    ||| starts_with(t, "include "@)
    ||| starts_with(t, "dotenv "@)
    ||| starts_with(t, "@description"@)
    ||| starts_with(t, "@confirm"@)
}

/// After a malformed task, the line where parsing resumes: the next line that
/// starts with a top-level keyword, or the line after a lone `}`.
pub open spec fn spec_skip_to_next_toplevel(lines: Seq<Seq<char>>, i: int) -> int
    decreases lines.len() - i,
{
    if i < 0 || i >= lines.len() {
        i
    } else {
        let t = trim(lines[i]);
        if is_toplevel_start(t) {
            i
        } else if t == "}"@ {
            i + 1
        } else {
            spec_skip_to_next_toplevel(lines, i + 1)
        }
    }
}

/// `spec_skip_to_next_toplevel` does not move backwards.
pub proof fn lemma_skip_to_next_toplevel_bounds(lines: Seq<Seq<char>>, i: int)
    requires
        0 <= i,
    ensures
        spec_skip_to_next_toplevel(lines, i) >= i,
        i <= lines.len() ==> spec_skip_to_next_toplevel(lines, i) <= lines.len(),
    decreases lines.len() - i,
{
    if i < lines.len() {
        lemma_skip_to_next_toplevel_bounds(lines, i + 1);
    }
}

/// The body of a task ends after it starts, and within the document.
pub proof fn lemma_body_scan_bounds(
    lines: Seq<Seq<char>>,
    i: int,
    depth: int,
    acc: Seq<Seq<char>>,
)
    requires
        0 <= i <= lines.len(),
    ensures
        i <= body_scan(lines, i, depth, acc).1 <= lines.len(),
        depth != 0 && body_scan(lines, i, depth, acc).2 == 0 ==> body_scan(lines, i, depth, acc).1
            > i,
    decreases lines.len() - i,
{
    if i < lines.len() {
        let d = depth + brace_delta(lines[i]);
        if d != 0 {
            lemma_body_scan_bounds(lines, i + 1, d, acc.push(lines[i]));
        }
    }
}

/// A found opening brace is on a line at or after `i`.
pub proof fn lemma_find_open_brace_bounds(lines: Seq<Seq<char>>, i: int)
    requires
        0 <= i,
    ensures
        find_open_brace(lines, i) matches BraceSearch::Found(b) ==> i < b <= lines.len(),
    decreases lines.len() - i,
{
    if i < lines.len() {
        lemma_find_open_brace_bounds(lines, i + 1);
    }
}

/// A parsed task ends on or after the line where it starts.
pub proof fn lemma_parse_task_next(lines: Seq<Seq<char>>, start: int)
    requires
        0 <= start < lines.len(),
    ensures
        spec_parse_task(lines, start) matches TaskOutcome::Parsed(_, next) ==> start < next
            <= lines.len(),
{
    lemma_find_open_brace_bounds(lines, start + 1);
    let raw = lines[start];
    if let Some(Ok((_, _, h))) = spec_task_head(raw, start as u32) {
        let opening = if h.open_brace {
            BraceSearch::Found(start + 1)
        } else {
            find_open_brace(lines, start + 1)
        };
        if let BraceSearch::Found(b) = opening {
            lemma_body_scan_bounds(lines, b, 1, Seq::empty());
        }
    }
}

// ---------------------------------------------------------------------------
// Documents
/// The state of the parser between two lines.
pub struct ParseState {
    pub tasks: Seq<TaskModel>,
    pub aliases: Seq<AliasModel>,
    pub exports: Seq<ExportModel>,
    pub includes: Seq<PathModel>,
    pub dotenv: Seq<PathModel>,
    pub diagnostics: Seq<DiagnosticModel>,
    /// The text and line of a pending `@description`.
    pub description: Option<(Seq<char>, u32)>,
    /// The message and line of a pending `@confirm`.
    pub confirm: Option<(Seq<char>, u32)>,
}

/// The state before the first line.
pub open spec fn initial_state() -> ParseState {
    ParseState {
        tasks: Seq::empty(),
        aliases: Seq::empty(),
        exports: Seq::empty(),
        includes: Seq::empty(),
        dotenv: Seq::empty(),
        diagnostics: Seq::empty(),
        description: None,
        confirm: None,
    }
}

/// The text of a pending annotation.
pub open spec fn annotation_text(a: Option<(Seq<char>, u32)>) -> Option<Seq<char>> {
    match a {
        Some((text, _)) => Some(text),
        None => None,
    }
}

/// Before a declaration that is not a task: a warning for pending
/// annotations, at the line of the description if there is one, and the
/// annotations dropped.
pub open spec fn flush_annotations(st: ParseState, idx: u32) -> ParseState {
    if st.description is Some || st.confirm is Some {
        let w = match st.description {
            Some((_, l)) => l,
            None => match st.confirm {
                Some((_, l)) => l,
                None => idx,
            },
        };
        ParseState {
            diagnostics: st.diagnostics.push(
                warning_at(
                    Span { start_line: w, start_col: 0, end_line: w, end_col: 0 },
                    "@description/@confirm must be followed by a task definition"@,
                ),
            ),
            description: None,
            confirm: None,
            ..st
        }
    } else {
        st
    }
}

/// The state with a diagnostic added.
pub open spec fn add_diagnostic(st: ParseState, d: DiagnosticModel) -> ParseState {
    ParseState { diagnostics: st.diagnostics.push(d), ..st }
}

/// The message of a `@confirm` line: its text, or `Are you sure?` when it has none.
pub open spec fn confirm_message(line: Seq<char>) -> Seq<char> {
    let m = trim(line.skip("@confirm"@.len() as int));
    if m.len() == 0 {
        "Are you sure?"@
    } else {
        m
    }
}

/// What the parser does at line `i`: the next line to read and the new state,
/// or `None` where it panics.
pub open spec fn parse_step(lines: Seq<Seq<char>>, i: int, st: ParseState) -> Option<
    (int, ParseState),
> {
    let raw = lines[i];
    let line = trim(raw);
    let idx = i as u32;
    if line.len() == 0 || line[0] == '#' {
        Some((i + 1, st))
    } else if starts_with(line, "@description "@) {
        Some(
            (
                i + 1,
                ParseState {
                    description: Some((trim(line.skip("@description "@.len() as int)), idx)),
                    ..st
                },
            ),
        )
    } else if starts_with(line, "@confirm"@) {
        Some((i + 1, ParseState { confirm: Some((confirm_message(line), idx)), ..st }))
    } else if starts_with(line, "export "@) {
        let s = flush_annotations(st, idx);
        Some(
            (
                i + 1,
                match spec_parse_export(raw, idx) {
                    Ok(e) => ParseState { exports: s.exports.push(e), ..s },
                    Err(d) => add_diagnostic(s, d),
                },
            ),
        )
    } else if starts_with(line, "alias "@) {
        let s = flush_annotations(st, idx);
        Some(
            (
                i + 1,
                match spec_parse_alias(raw, idx) {
                    Ok(a) => ParseState { aliases: s.aliases.push(a), ..s },
                    Err(d) => add_diagnostic(s, d),
                },
            ),
        )
    } else if starts_with(line, "include "@) {
        let s = flush_annotations(st, idx);
        Some(
            (
                i + 1,
                match spec_parse_include(raw, idx) {
                    Ok(p) => ParseState { includes: s.includes.push(p), ..s },
                    Err(d) => add_diagnostic(s, d),
                },
            ),
        )
    } else if starts_with(line, "dotenv "@) {
        let s = flush_annotations(st, idx);
        Some(
            (
                i + 1,
                match spec_parse_dotenv(raw, idx) {
                    Ok(p) => ParseState { dotenv: s.dotenv.push(p), ..s },
                    Err(d) => add_diagnostic(s, d),
                },
            ),
        )
    } else if starts_with(line, "task "@) {
        match spec_parse_task(lines, i) {
            TaskOutcome::Parsed(t, next) => Some(
                (
                    next,
                    ParseState {
                        tasks: st.tasks.push(
                            TaskModel {
                                description: annotation_text(st.description),
                                confirm: annotation_text(st.confirm),
                                ..t
                            },
                        ),
                        description: None,
                        confirm: None,
                        ..st
                    },
                ),
            ),
            TaskOutcome::Failed(d) => Some(
                (
                    spec_skip_to_next_toplevel(lines, i + 1),
                    ParseState {
                        diagnostics: st.diagnostics.push(d),
                        description: None,
                        confirm: None,
                        ..st
                    },
                ),
            ),
            TaskOutcome::Panics => None,
        }
    } else {
        Some(
            (
                i + 1,
                add_diagnostic(
                    st,
                    error_at(full_line_span(idx, raw), "unexpected line: "@ + line),
                ),
            ),
        )
    }
}

/// Each step moves on by at least one line.
pub proof fn lemma_parse_step_advances(lines: Seq<Seq<char>>, i: int, st: ParseState)
    requires
        0 <= i < lines.len(),
    ensures
        parse_step(lines, i, st) matches Some((n, _)) ==> i < n <= lines.len(),
{
    lemma_parse_task_next(lines, i);
    lemma_skip_to_next_toplevel_bounds(lines, i + 1);
}

/// At the end of the document: warnings for annotations that no task followed.
pub open spec fn finish(st: ParseState) -> AstModel {
    let d1 = match st.description {
        Some((_, l)) => st.diagnostics.push(
            warning_at(
                Span { start_line: l, start_col: 0, end_line: l, end_col: 0 },
                "@description not followed by a task definition"@,
            ),
        ),
        None => st.diagnostics,
    };
    let d2 = match st.confirm {
        Some((_, l)) => d1.push(
            warning_at(
                Span { start_line: l, start_col: 0, end_line: l, end_col: 0 },
                "@confirm not followed by a task definition"@,
            ),
        ),
        None => d1,
    };
    AstModel {
        tasks: st.tasks,
        aliases: st.aliases,
        exports: st.exports,
        includes: st.includes,
        dotenv: st.dotenv,
        diagnostics: d2,
    }
}

/// Parsing from line `i` on in state `st`; `None` where the parser panics.
pub open spec fn parse_from(lines: Seq<Seq<char>>, i: int, st: ParseState) -> Option<AstModel>
    decreases lines.len() - i,
{
    if i < 0 || i >= lines.len() {
        Some(finish(st))
    } else {
        match parse_step(lines, i, st) {
            None => None,
            Some((n, s)) => {
                proof {
                    lemma_parse_step_advances(lines, i, st);
                    assert(i < n <= lines.len());
                }
                parse_from(lines, n, s)
            },
        }
    }
}

/// What parsing a whole document yields; `None` where the parser panics
/// (see `TaskOutcome::Panics`).
pub open spec fn spec_parse(input: Seq<char>) -> Option<AstModel> {
    parse_from(lines_of(input), 0, initial_state())
}

/// Each body line is a line of the document, or a prefix of one, so it is no longer in bytes.
pub proof fn lemma_body_lines_fit(
    lines: Seq<Seq<char>>,
    i: int,
    depth: int,
    acc: Seq<Seq<char>>,
)
    requires
        0 <= i,
        forall|k: int| 0 <= k < lines.len() ==> utf8_len(#[trigger] lines[k]) <= usize::MAX,
        forall|k: int| 0 <= k < acc.len() ==> utf8_len(#[trigger] acc[k]) <= usize::MAX,
    ensures
        forall|k: int|
            0 <= k < body_scan(lines, i, depth, acc).0.len() ==> utf8_len(
                #[trigger] body_scan(lines, i, depth, acc).0[k],
            ) <= usize::MAX,
    decreases lines.len() - i,
{
    if i < lines.len() {
        let l = lines[i];
        let d = depth + brace_delta(l);
        if d == 0 {
            let p = last_in(l, CharClass::Is('}'));
            lemma_last_in_props(l, CharClass::Is('}'));
            if p >= 0 {
                lemma_utf8_len_subrange(l, 0, p);
            }
            let r = body_scan(lines, i, depth, acc).0;
            assert forall|k: int| 0 <= k < r.len() implies utf8_len(#[trigger] r[k]) <= usize::MAX by {
                if k < acc.len() {
                    assert(r[k] == acc[k]);
                } else {
                    assert(r[k] == l.take(p));
                }
            }
        } else {
            let acc2 = acc.push(l);
            assert forall|k: int| 0 <= k < acc2.len() implies utf8_len(#[trigger] acc2[k])
                <= usize::MAX by {
                if k < acc.len() {
                    assert(acc2[k] == acc[k]);
                }
            }
            lemma_body_lines_fit(lines, i + 1, d, acc2);
            assert(body_scan(lines, i, depth, acc) == body_scan(lines, i + 1, d, acc2));
        }
    }
}

} // verus!
