//! What the parser and the server's answers are for, stated over every input:
//! which include a line finds, where a declaration splits into key and value,
//! which completions a line offers, which task an annotation belongs to, and
//! what the hover text of a task lists.
use vstd::prelude::*;

use crate::ast::{DependencyModel, PathModel, TaskModel};
use crate::model::{
    line_span, parse_step, spec_parse_alias, spec_parse_export, spec_parse_task, spec_unquote,
    ParseState, TaskOutcome,
};
use crate::server::{
    spec_completion, spec_in_depends_context, spec_include_at, typed_prefix, CompletionModel,
    EntryKind,
};
use crate::text::{first_in, join_sep, lemma_first_in, starts_with, trim, CharClass};

verus! {

/// Whether include `k` stands on line `line` alone.
pub open spec fn include_on_line(includes: Seq<PathModel>, k: int, line: u32) -> bool {
    includes[k].span.start_line == line && includes[k].span.end_line == line
}

/// Go to the included Taskfile: the lookup at a line gives the path of the
/// first include that stands on that line, and nothing when none does.
pub proof fn law_include_lookup_is_first_include_on_line(includes: Seq<PathModel>, line: u32)
    ensures
        match spec_include_at(includes, line) {
            Some(p) => exists|k: int|
                0 <= k < includes.len() && #[trigger] include_on_line(includes, k, line)
                    && includes[k].path == p && forall|j: int|
                    0 <= j < k ==> !include_on_line(includes, j, line),
            None => forall|k: int| 0 <= k < includes.len() ==> !include_on_line(includes, k, line),
        },
    decreases includes.len(),
{
    if includes.len() > 0 {
        let rest = includes.drop_first();
        law_include_lookup_is_first_include_on_line(rest, line);
        assert forall|k: int| 0 < k < includes.len() implies include_on_line(includes, k, line)
            == include_on_line(rest, k - 1, line) by {
            assert(includes[k] == rest[k - 1]);
        }
        if include_on_line(includes, 0, line) {
            assert(include_on_line(includes, 0, line));
        } else {
            match spec_include_at(rest, line) {
                Some(p) => {
                    let k0 = choose|k: int|
                        0 <= k < rest.len() && #[trigger] include_on_line(rest, k, line)
                            && rest[k].path == p && forall|j: int|
                            0 <= j < k ==> !include_on_line(rest, j, line);
                    assert(includes[k0 + 1] == rest[k0]);
                    assert(include_on_line(includes, k0 + 1, line));
                    assert forall|j: int| 0 <= j < k0 + 1 implies !include_on_line(includes, j, line) by {
                        if j > 0 {
                            assert(includes[j] == rest[j - 1]);
                        }
                    }
                },
                None => {
                    assert forall|k: int| 0 <= k < includes.len() implies !include_on_line(
                        includes,
                        k,
                        line,
                    ) by {
                        if k > 0 {
                            assert(includes[k] == rest[k - 1]);
                        }
                    }
                },
            }
        }
    }
}

/// The text of a declaration line after its keyword (of `kw_len` characters).
pub open spec fn declaration_rest(raw: Seq<char>, kw_len: int) -> Seq<char> {
    trim(trim(raw).skip(kw_len))
}

/// Splitting `rest = key + "=" + value`, where the key has no `=`, at the first `=`.
proof fn lemma_first_equals(rest: Seq<char>, k: Seq<char>, v: Seq<char>)
    requires
        rest == k + seq!['='] + v,
        forall|j: int| 0 <= j < k.len() ==> k[j] != '=',
    ensures
        first_in(rest, CharClass::Is('=')) == k.len(),
        rest.take(k.len() as int) == k,
        rest.skip(k.len() as int + 1) == v,
{
    assert forall|j: int| 0 <= j < k.len() implies !crate::text::in_class(
        #[trigger] rest[j],
        CharClass::Is('='),
    ) by {
        assert(rest[j] == k[j]);
    }
    assert(rest[k.len() as int] == '=');
    lemma_first_in(rest, CharClass::Is('='), k.len() as int);
    assert(rest.take(k.len() as int) =~= k);
    assert(rest.skip(k.len() as int + 1) =~= v);
}

/// An export line splits at its first `=`: where the text after `export ` is
/// a key without `=`, then `=`, then the value, the export has the trimmed key
/// and the trimmed, unquoted value (when the key is not blank); where that
/// text has no `=`, the line is an error. So a key never holds `=`.
pub proof fn law_export_splits_at_first_equals(raw: Seq<char>, idx: u32, k: Seq<char>, v: Seq<char>)
    ensures
        declaration_rest(raw, 7) == k + seq!['='] + v && (forall|j: int|
            0 <= j < k.len() ==> k[j] != '=') && trim(k).len() > 0 ==> spec_parse_export(raw, idx)
            == Ok::<crate::ast::ExportModel, crate::ast::DiagnosticModel>(
            crate::ast::ExportModel { key: trim(k), value: spec_unquote(trim(v)), span: line_span(idx, raw) },
        ),
        (forall|j: int| 0 <= j < declaration_rest(raw, 7).len() ==> declaration_rest(raw, 7)[j] != '=')
            ==> spec_parse_export(raw, idx) is Err,
        spec_parse_export(raw, idx) matches Ok(e) ==> forall|j: int| 0 <= j < e.key.len() ==> e.key[j] != '=',
{
    reveal_strlit("export ");
    let rest = declaration_rest(raw, 7);
    lemma_key_has_no_equals(rest);
    if rest == k + seq!['='] + v && (forall|j: int| 0 <= j < k.len() ==> k[j] != '=') {
        lemma_first_equals(rest, k, v);
    }
    if forall|j: int| 0 <= j < rest.len() ==> rest[j] != '=' {
        lemma_no_equals(rest);
    }
}

/// An alias line splits at its first `=`, as an export line does.
pub proof fn law_alias_splits_at_first_equals(raw: Seq<char>, idx: u32, k: Seq<char>, v: Seq<char>)
    ensures
        declaration_rest(raw, 6) == k + seq!['='] + v && (forall|j: int|
            0 <= j < k.len() ==> k[j] != '=') && trim(k).len() > 0 ==> spec_parse_alias(raw, idx)
            == Ok::<crate::ast::AliasModel, crate::ast::DiagnosticModel>(
            crate::ast::AliasModel { name: trim(k), value: spec_unquote(trim(v)), span: line_span(idx, raw) },
        ),
        (forall|j: int| 0 <= j < declaration_rest(raw, 6).len() ==> declaration_rest(raw, 6)[j] != '=')
            ==> spec_parse_alias(raw, idx) is Err,
        spec_parse_alias(raw, idx) matches Ok(e) ==> forall|j: int| 0 <= j < e.name.len() ==> e.name[j] != '=',
{
    reveal_strlit("alias ");
    let rest = declaration_rest(raw, 6);
    lemma_key_has_no_equals(rest);
    if rest == k + seq!['='] + v && (forall|j: int| 0 <= j < k.len() ==> k[j] != '=') {
        lemma_first_equals(rest, k, v);
    }
    if forall|j: int| 0 <= j < rest.len() ==> rest[j] != '=' {
        lemma_no_equals(rest);
    }
}

/// The trimmed text before the first `=` holds no `=`.
proof fn lemma_key_has_no_equals(rest: Seq<char>)
    ensures
        forall|j: int|
            0 <= j < trim(rest.take(first_in(rest, CharClass::Is('=')))).len() ==> trim(
                rest.take(first_in(rest, CharClass::Is('='))),
            )[j] != '=',
{
    let eq = first_in(rest, CharClass::Is('='));
    crate::text::lemma_first_in_props(rest, CharClass::Is('='));
    let key0 = rest.take(eq);
    let a = crate::text::leading_ws(key0);
    crate::text::lemma_first_in_props(key0, CharClass::NotWhitespace);
    let ts = crate::text::trim_start(key0);
    crate::text::lemma_last_in_props(ts, CharClass::NotWhitespace);
    let key = trim(key0);
    assert forall|j: int| 0 <= j < key.len() implies key[j] != '=' by {
        assert(key[j] == ts[j]);
        assert(ts[j] == key0[a + j]);
        assert(key0[a + j] == rest[a + j]);
    }
}

/// A text without `=` has its first `=` at its end.
proof fn lemma_no_equals(rest: Seq<char>)
    requires
        forall|j: int| 0 <= j < rest.len() ==> rest[j] != '=',
    ensures
        first_in(rest, CharClass::Is('=')) == rest.len(),
{
    lemma_first_in(rest, CharClass::Is('='), rest.len() as int);
}

/// Whether a typed text may begin a top-level declaration: nothing, or the
/// first two characters of `task`, `export`, `alias`, `include` or `dotenv`,
/// or `@`.
pub open spec fn begins_declaration(t: Seq<char>) -> bool {
    ||| t.len() == 0
    ||| (t.len() >= 2 && t[0] == 't' && t[1] == 'a')
    ||| (t.len() >= 2 && t[0] == 'e' && t[1] == 'x')
    ||| (t.len() >= 2 && t[0] == 'a' && t[1] == 'l')
    ||| (t.len() >= 2 && t[0] == 'i' && t[1] == 'n')
    ||| (t.len() >= 2 && t[0] == 'd' && t[1] == 'o')
    ||| (t.len() >= 1 && t[0] == '@')
}

/// Whether the completion is the keyword `label`, explained by `detail`.
pub open spec fn is_keyword(c: CompletionModel, label: Seq<char>, detail: Seq<char>) -> bool {
    c.label == label && c.kind == EntryKind::Keyword && c.detail == Some(detail)
}

/// Completion outside a dependency list: where what is typed before the
/// cursor on its line (leading blanks removed) may begin a declaration, the
/// completions are the seven keywords `task`, `export`, `alias`, `include`,
/// `dotenv`, `@description` and `@confirm`, in that order, each with what it
/// does; after
/// `task ` the snippets `depends` and `depends_parallel` follow them; and
/// where what is typed cannot begin a declaration there are no completions.
pub proof fn law_keywords_at_the_start_of_a_declaration(
    text: Seq<char>,
    tasks: Seq<TaskModel>,
    line: u32,
    character: u32,
)
    requires
        !spec_in_depends_context(text, line, character),
    ensures
        ({
            let t = typed_prefix(text, line, character);
            let items = spec_completion(text, tasks, line, character);
            &&& begins_declaration(t) ==> {
                &&& items.len() >= 7
                &&& is_keyword(items[0], "task"@, "Define a new task"@)
                &&& is_keyword(items[1], "export"@, "Export an environment variable"@)
                &&& is_keyword(items[2], "alias"@, "Define a shell alias"@)
                &&& is_keyword(items[3], "include"@, "Include another Taskfile"@)
                &&& is_keyword(items[4], "dotenv"@, "Load a .env file"@)
                &&& is_keyword(items[5], "@description"@, "Set task description"@)
                &&& is_keyword(items[6], "@confirm"@, "Require confirmation before running"@)
            }
            &&& begins_declaration(t) && !starts_with(t, "task "@) ==> items.len() == 7
            &&& starts_with(t, "task "@) ==> items.len() == 9 && items[7].label == "depends"@
                && items[8].label == "depends_parallel"@
            &&& !begins_declaration(t) ==> items.len() == 0
        }),
{
    reveal_strlit("ta");
    reveal_strlit("ex");
    reveal_strlit("al");
    reveal_strlit("in");
    reveal_strlit("do");
    reveal_strlit("@");
    reveal_strlit("task ");
    reveal_strlit("task");
    reveal_strlit("export");
    reveal_strlit("alias");
    reveal_strlit("include");
    reveal_strlit("dotenv");
    reveal_strlit("@description");
    reveal_strlit("@confirm");
    reveal_strlit("depends");
    reveal_strlit("depends_parallel");
    let t = typed_prefix(text, line, character);
    lemma_starts_with_prefix(t, "ta"@);
    lemma_starts_with_prefix(t, "ex"@);
    lemma_starts_with_prefix(t, "al"@);
    lemma_starts_with_prefix(t, "in"@);
    lemma_starts_with_prefix(t, "do"@);
    lemma_starts_with_prefix(t, "@"@);
    if starts_with(t, "task "@) {
        assert(t[0] == t.take(5)[0] && t[1] == t.take(5)[1]);
        assert("task "@[0] == 't' && "task "@[1] == 'a');
    }
}

/// A text starts with a short prefix exactly when its first characters are the prefix's.
proof fn lemma_starts_with_prefix(t: Seq<char>, p: Seq<char>)
    requires
        1 <= p.len() <= 2,
    ensures
        starts_with(t, p) <==> (t.len() >= p.len() && t[0] == p[0] && (p.len() == 2 ==> t[1] == p[1])),
{
    if t.len() >= p.len() {
        if t[0] == p[0] && (p.len() == 2 ==> t[1] == p[1]) {
            assert(t.take(p.len() as int) =~= p);
        }
        if starts_with(t, p) {
            assert(t[0] == t.take(p.len() as int)[0]);
            if p.len() == 2 {
                assert(t[1] == t.take(p.len() as int)[1]);
            }
        }
    }
}

/// What a pending annotation holds.
pub open spec fn pending_text(a: Option<(Seq<char>, u32)>) -> Option<Seq<char>> {
    match a {
        Some((text, _)) => Some(text),
        None => None,
    }
}

/// Annotations belong to one task: reading a task line leaves no annotation
/// pending; a parsed task gets exactly the description and confirmation that
/// were pending before it; and a task that follows it directly gets neither.
pub proof fn law_annotations_belong_to_the_next_task(lines: Seq<Seq<char>>, i: int, st: ParseState)
    requires
        0 <= i < lines.len(),
        starts_with(trim(lines[i]), "task "@),
    ensures
        parse_step(lines, i, st) matches Some((_, s)) ==> s.description is None && s.confirm is None,
        spec_parse_task(lines, i) is Parsed ==> match parse_step(lines, i, st) {
            Some((n, s)) => {
                &&& s.tasks.len() == st.tasks.len() + 1
                &&& s.tasks.last().description == pending_text(st.description)
                &&& s.tasks.last().confirm == pending_text(st.confirm)
                &&& (0 <= n < lines.len() && starts_with(trim(lines[n]), "task "@) && spec_parse_task(
                    lines,
                    n,
                ) is Parsed) ==> match parse_step(lines, n, s) {
                    Some((_, s2)) => s2.tasks.last().description is None && s2.tasks.last().confirm is None,
                    None => false,
                }
            },
            None => false,
        },
{
    lemma_task_line_is_task(lines[i]);
    if let TaskOutcome::Parsed(_, n) = spec_parse_task(lines, i) {
        if 0 <= n < lines.len() && starts_with(trim(lines[n]), "task "@) {
            lemma_task_line_is_task(lines[n]);
        }
    }
}

/// A line that starts with `task ` is read as a task: it is not blank, not a
/// comment, and starts with no other keyword.
proof fn lemma_task_line_is_task(raw: Seq<char>)
    requires
        starts_with(trim(raw), "task "@),
    ensures
        ({
            let line = trim(raw);
            &&& line.len() > 0 && line[0] != '#'
            &&& !starts_with(line, "@description "@)
            &&& !starts_with(line, "@confirm"@)
            &&& !starts_with(line, "export "@)
            &&& !starts_with(line, "alias "@)
            &&& !starts_with(line, "include "@)
            &&& !starts_with(line, "dotenv "@)
        }),
{
    reveal_strlit("task ");
    reveal_strlit("@description ");
    reveal_strlit("@confirm");
    reveal_strlit("export ");
    reveal_strlit("alias ");
    reveal_strlit("include ");
    reveal_strlit("dotenv ");
    let line = trim(raw);
    assert(line[0] == line.take(5)[0]);
    assert(line.take(5)[0] == 't');
}

/// Where the `i`-th piece starts in `join_sep(ls, sep)`.
spec fn join_offset(ls: Seq<Seq<char>>, sep: Seq<char>, i: int) -> int
    decreases i,
{
    if i <= 0 {
        0
    } else {
        join_offset(ls, sep, i - 1) + ls[i - 1].len() + sep.len()
    }
}

/// The offsets of the first pieces do not depend on the later ones.
proof fn lemma_join_offset_prefix(ls: Seq<Seq<char>>, sep: Seq<char>, i: int)
    requires
        0 <= i < ls.len(),
    ensures
        join_offset(ls.drop_last(), sep, i) == join_offset(ls, sep, i),
    decreases i,
{
    if i > 0 {
        lemma_join_offset_prefix(ls, sep, i - 1);
    }
}

/// Each piece stands at its offset in the joined text, followed by the
/// separator (or by the end of the text, for the last piece).
proof fn lemma_join_pieces(ls: Seq<Seq<char>>, sep: Seq<char>)
    requires
        ls.len() > 0,
    ensures
        join_sep(ls, sep).len() == join_offset(ls, sep, ls.len() - 1) + ls.last().len(),
        forall|i: int|
            0 <= i < ls.len() ==> {
                let o = #[trigger] join_offset(ls, sep, i);
                &&& 0 <= o
                &&& o + ls[i].len() <= join_sep(ls, sep).len()
                &&& join_sep(ls, sep).subrange(o, o + ls[i].len()) == ls[i]
                &&& i + 1 < ls.len() ==> join_sep(ls, sep).subrange(
                    o + ls[i].len(),
                    o + ls[i].len() + sep.len(),
                ) == sep
            },
    decreases ls.len(),
{
    let j = join_sep(ls, sep);
    if ls.len() == 1 {
        assert(j.subrange(0, ls[0].len() as int) =~= ls[0]);
    } else {
        let init = ls.drop_last();
        lemma_join_pieces(init, sep);
        let ji = join_sep(init, sep);
        let n = ls.len() - 1;
        assert(j == ji + sep + ls.last());
        lemma_join_offset_prefix(ls, sep, n - 1);
        assert forall|i: int| 0 <= i < ls.len() implies {
            let o = #[trigger] join_offset(ls, sep, i);
            &&& 0 <= o
            &&& o + ls[i].len() <= j.len()
            &&& j.subrange(o, o + ls[i].len()) == ls[i]
            &&& i + 1 < ls.len() ==> j.subrange(o + ls[i].len(), o + ls[i].len() + sep.len()) == sep
        } by {
            if i < n {
                lemma_join_offset_prefix(ls, sep, i);
                let o = join_offset(ls, sep, i);
                assert(init[i] == ls[i]);
                assert(j.subrange(o, o + ls[i].len()) =~= ji.subrange(o, o + ls[i].len()));
                if i + 1 < n {
                    lemma_join_offset_prefix(ls, sep, i + 1);
                    assert(j.subrange(o + ls[i].len(), o + ls[i].len() + sep.len()) =~= ji.subrange(
                        o + ls[i].len(),
                        o + ls[i].len() + sep.len(),
                    ));
                } else {
                    assert(j.subrange(o + ls[i].len(), o + ls[i].len() + sep.len()) =~= sep);
                }
            } else {
                assert(join_offset(ls, sep, n) == ji.len() + sep.len());
                assert(j.subrange(ji.len() + sep.len() as int, j.len() as int) =~= ls.last());
            }
        }
    }
}

/// A part of a part of a text is a part of the text.
proof fn lemma_subrange_within(h: Seq<char>, o: int, p: Seq<char>, a: int, b: int)
    requires
        0 <= o,
        o + p.len() <= h.len(),
        h.subrange(o, o + p.len()) == p,
        0 <= a <= b <= p.len(),
    ensures
        h.subrange(o + a, o + b) == p.subrange(a, b),
{
    assert forall|x: int| 0 <= x < b - a implies h.subrange(o + a, o + b)[x] == p.subrange(a, b)[x] by {
        assert(h.subrange(o, o + p.len())[a + x] == h[o + a + x]);
    }
    assert(h.subrange(o + a, o + b) =~= p.subrange(a, b));
}

/// Whether the text `h` has `header` followed by `names`, in order, separated
/// by `, `, with the list ending the paragraph (followed by a blank line or
/// the end of the text); `ps` are the positions of the names.
pub open spec fn names_listed(h: Seq<char>, header: Seq<char>, names: Seq<Seq<char>>, ps: Seq<int>) -> bool {
    let n = names.len() as int;
    let m = header.len() as int;
    &&& n > 0
    &&& ps.len() == n
    &&& m <= ps[0] <= h.len()
    &&& h.subrange(ps[0] - m, ps[0]) == header
    &&& forall|k: int|
        0 <= k < n ==> 0 <= #[trigger] ps[k] && ps[k] + names[k].len() <= h.len() && h.subrange(
            ps[k],
            ps[k] + names[k].len(),
        ) == names[k]
    &&& forall|k: int|
        0 < k < n ==> #[trigger] ps[k] == ps[k - 1] + names[k - 1].len() + 2 && h.subrange(
            ps[k] - 2,
            ps[k],
        ) == ", "@
    &&& ({
        let e = ps[n - 1] + names[n - 1].len();
        e == h.len() || (e + 2 <= h.len() && h.subrange(e, e + 2) == "\n\n"@)
    })
}

/// The names of dependencies.
pub open spec fn dependency_names(ds: Seq<DependencyModel>) -> Seq<Seq<char>> {
    Seq::new(ds.len(), |k: int| ds[k].name)
}

/// Parameters as a user sees them: `name="default"`, or the bare name.
pub open spec fn parameters_shown(ps: Seq<crate::ast::ParamModel>) -> Seq<Seq<char>> {
    Seq::new(
        ps.len(),
        |k: int|
            match ps[k].default {
                Some(d) => ps[k].name + "=\""@ + d + "\""@,
                None => ps[k].name,
            },
    )
}

/// Where a paragraph stands in a text joined by blank lines.
proof fn lemma_paragraph_at(parts: Seq<Seq<char>>, jdx: int) -> (big: int)
    requires
        0 <= jdx < parts.len(),
    ensures
        0 <= big,
        big + parts[jdx].len() <= join_sep(parts, "\n\n"@).len(),
        join_sep(parts, "\n\n"@).subrange(big, big + parts[jdx].len()) == parts[jdx],
        ({
            let h = join_sep(parts, "\n\n"@);
            let e = big + parts[jdx].len();
            e == h.len() || (e + 2 <= h.len() && h.subrange(e, e + 2) == "\n\n"@)
        }),
{
    reveal_strlit("\n\n");
    lemma_join_pieces(parts, "\n\n"@);
    let big = join_offset(parts, "\n\n"@, jdx);
    assert("\n\n"@.len() == 2);
    if jdx == parts.len() - 1 {
        assert(big + parts[jdx].len() == join_sep(parts, "\n\n"@).len());
    } else {
        assert(join_offset(parts, "\n\n"@, jdx + 1) == big + parts[jdx].len() + 2);
        assert(join_sep(parts, "\n\n"@).subrange(
            big + parts[jdx].len(),
            big + parts[jdx].len() + "\n\n"@.len(),
        ) == "\n\n"@);
    }
    big
}

/// A paragraph `header` + names joined by `, ` that stands at `big` in `h`
/// and ends its paragraph lists the names.
#[verifier::rlimit(40)]
proof fn lemma_list_in_paragraph(h: Seq<char>, big: int, header: Seq<char>, names: Seq<Seq<char>>)
    requires
        0 <= big,
        names.len() > 0,
        big + (header + join_sep(names, ", "@)).len() <= h.len(),
        h.subrange(big, big + (header + join_sep(names, ", "@)).len()) == header + join_sep(names, ", "@),
        ({
            let e = big + (header + join_sep(names, ", "@)).len();
            e == h.len() || (e + 2 <= h.len() && h.subrange(e, e + 2) == "\n\n"@)
        }),
    ensures
        exists|ps: Seq<int>| names_listed(h, header, names, ps),
{
    reveal_strlit(", ");
    let pd = header + join_sep(names, ", "@);
    let m = header.len() as int;
    lemma_join_pieces(names, ", "@);
    let jn = join_sep(names, ", "@);
    let n = names.len() as int;
    let ps = Seq::new(n as nat, |k: int| big + m + join_offset(names, ", "@, k));
    assert(pd.subrange(0, m) =~= header);
    lemma_subrange_within(h, big, pd, 0, m);
    assert forall|k: int| 0 <= k < n implies 0 <= #[trigger] ps[k] && ps[k] + names[k].len() <= h.len()
        && h.subrange(ps[k], ps[k] + names[k].len()) == names[k] by {
        let o = join_offset(names, ", "@, k);
        assert(jn.subrange(o, o + names[k].len()) == names[k]);
        assert(pd.subrange(m + o, m + o + names[k].len()) =~= jn.subrange(o, o + names[k].len()));
        lemma_subrange_within(h, big, pd, m + o, m + o + names[k].len());
    }
    assert forall|k: int| 0 < k < n implies #[trigger] ps[k] == ps[k - 1] + names[k - 1].len() + 2
        && h.subrange(ps[k] - 2, ps[k]) == ", "@ by {
        let o = join_offset(names, ", "@, k - 1);
        let e = o + names[k - 1].len();
        assert(join_offset(names, ", "@, k) == e + 2);
        assert(jn.subrange(e, e + 2) == ", "@);
        assert(pd.subrange(m + e, m + e + 2) =~= jn.subrange(e, e + 2));
        lemma_subrange_within(h, big, pd, m + e, m + e + 2);
    }
    assert(ps[n - 1] + names[n - 1].len() == big + pd.len());
    assert(names_listed(h, header, names, ps));
}

/// A paragraph `header` + names joined by `, ` of a text joined by blank lines lists the names.
proof fn lemma_paragraph_lists(
    parts: Seq<Seq<char>>,
    jdx: int,
    header: Seq<char>,
    names: Seq<Seq<char>>,
)
    requires
        0 <= jdx < parts.len(),
        names.len() > 0,
        parts[jdx] == header + join_sep(names, ", "@),
    ensures
        exists|ps: Seq<int>| names_listed(join_sep(parts, "\n\n"@), header, names, ps),
{
    let big = lemma_paragraph_at(parts, jdx);
    lemma_list_in_paragraph(join_sep(parts, "\n\n"@), big, header, names);
}

/// Hover over a task: the text starts with `**task** ` and the name in
/// backquotes; the task's description, if any, follows after a blank line; and
/// there are paragraphs `**Parameters:** `, `**Depends:** ` and
/// `**Parallel depends:** ` that list all of the task's parameters (shown as
/// `name="default"` or `name`), dependencies and parallel dependencies, in
/// order, separated by `, `, whenever the task has any.
pub proof fn law_hover_describes_the_task(t: TaskModel)
    ensures
        ({
            let h = crate::server::hover_text(t);
            let title = "**task** `"@ + t.name + "`"@;
            &&& title.len() <= h.len() && h.take(title.len() as int) == title
            &&& t.description matches Some(d) ==> title.len() + 2 + d.len() <= h.len() && h.subrange(
                title.len() as int,
                (title.len() + 2 + d.len()) as int,
            ) == "\n\n"@ + d
            &&& t.params.len() > 0 ==> exists|ps: Seq<int>|
                names_listed(h, "**Parameters:** "@, parameters_shown(t.params), ps)
            &&& t.dependencies.len() > 0 ==> exists|ps: Seq<int>|
                names_listed(h, "**Depends:** "@, dependency_names(t.dependencies), ps)
            &&& t.parallel_dependencies.len() > 0 ==> exists|ps: Seq<int>|
                names_listed(h, "**Parallel depends:** "@, dependency_names(t.parallel_dependencies), ps)
        }),
{
    reveal_strlit("\n\n");
    let h = crate::server::hover_text(t);
    let parts = crate::server::hover_parts(t);
    let title = "**task** `"@ + t.name + "`"@;
    lemma_join_pieces(parts, "\n\n"@);
    assert(parts[0] == title);
    assert(join_offset(parts, "\n\n"@, 0) == 0);
    assert(h.take(title.len() as int) =~= h.subrange(0, title.len() as int));
    let di: int = 1;
    let pi: int = 1 + (if t.description is Some { 1int } else { 0int });
    let ddi: int = pi + (if t.params.len() > 0 { 1int } else { 0int });
    let pdi: int = ddi + (if t.dependencies.len() > 0 { 1int } else { 0int });
    if let Some(d) = t.description {
        assert(parts[1] == d);
        assert(join_offset(parts, "\n\n"@, 1) == title.len() + 2);
        assert(h.subrange(title.len() as int, title.len() as int + 2) == "\n\n"@);
        assert(h.subrange(title.len() as int + 2, (title.len() + 2 + d.len()) as int) == d);
        assert(h.subrange(title.len() as int, (title.len() + 2 + d.len()) as int) =~= "\n\n"@ + d);
    }
    if t.params.len() > 0 {
        let x = t.params.map_values(|p| crate::ast::param_text(p));
        assert(parts[pi] == "**Parameters:** "@ + join_sep(x, ", "@));
        assert(x =~= parameters_shown(t.params));
        lemma_paragraph_lists(parts, pi, "**Parameters:** "@, parameters_shown(t.params));
    }
    if t.dependencies.len() > 0 {
        let x = t.dependencies.map_values(|d: crate::ast::DependencyModel| d.name);
        assert(parts[ddi] == "**Depends:** "@ + join_sep(x, ", "@));
        assert(x =~= dependency_names(t.dependencies));
        lemma_paragraph_lists(parts, ddi, "**Depends:** "@, dependency_names(t.dependencies));
    }
    if t.parallel_dependencies.len() > 0 {
        let x = t.parallel_dependencies.map_values(|d: crate::ast::DependencyModel| d.name);
        assert(parts[pdi] == "**Parallel depends:** "@ + join_sep(x, ", "@));
        assert(x =~= dependency_names(t.parallel_dependencies));
        lemma_paragraph_lists(parts, pdi, "**Parallel depends:** "@, dependency_names(t.parallel_dependencies));
    }
}
/// Stripping quotes from a value: a value in double or single quotes loses
/// exactly its two quotes, whatever it holds (quotes and `=` included).
pub proof fn law_unquote_strips_one_pair_of_quotes(q: char, x: Seq<char>)
    requires
        q == '"' || q == '\'',
    ensures
        spec_unquote(seq![q] + x + seq![q]) == x,
{
    let w = seq![q] + x + seq![q];
    assert(!crate::text::unicode_white_space(q));
    assert(w[0] == q);
    assert(w[w.len() - 1] == q);
    lemma_first_in(w, CharClass::NotWhitespace, 0);
    assert(crate::text::trim_start(w) =~= w);
    crate::text::lemma_last_in(w, CharClass::NotWhitespace, w.len() - 1);
    assert(trim(w) =~= w);
    assert(w.subrange(1, w.len() - 1) =~= x);
}

} // verus!
