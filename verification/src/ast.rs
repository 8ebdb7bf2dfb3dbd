//! The syntax tree of a Taskfile, and its mathematical model.
//!
//! Each executable type has a view (`@`) in which every `String` is its
//! sequence of characters and every `Vec` a `Seq` of views.
use vstd::prelude::*;

use crate::text::string_of;

verus! {

/// A range in a document: zero-based lines, columns in UTF-8 bytes.
#[derive(Debug, Clone, Copy, PartialEq, Eq, Structural)]
pub struct Span {
    pub start_line: u32,
    pub start_col: u32,
    pub end_line: u32,
    pub end_col: u32,
}

impl Span {
    /// The span from (`start_line`, `start_col`) to (`end_line`, `end_col`).
    pub fn new(start_line: u32, start_col: u32, end_line: u32, end_col: u32) -> (r: Self)
        ensures
            r == (Span { start_line, start_col, end_line, end_col }),
    {
        Self { start_line, start_col, end_line, end_col }
    }

    /// The empty span at (`line`, `col`).
    pub fn point(line: u32, col: u32) -> (r: Self)
        ensures
            r == (Span { start_line: line, start_col: col, end_line: line, end_col: col }),
    {
        Self { start_line: line, start_col: col, end_line: line, end_col: col }
    }
}

/// Whether a diagnostic is an error or a warning.
#[derive(Debug, Clone, Copy, PartialEq, Eq, Structural)]
pub enum DiagnosticSeverity {
    Error,
    Warning,
}

/// A message about a range of the document.
#[derive(Debug, Clone)]
pub struct Diagnostic {
    pub span: Span,
    pub message: String,
    pub severity: DiagnosticSeverity,
}

/// A task: a named block of shell commands with its header.
#[derive(Debug, Clone)]
pub struct Task {
    pub name: String,
    pub name_span: Span,
    pub description: Option<String>,
    pub confirm: Option<String>,
    pub params: Vec<Param>,
    pub dependencies: Vec<Dependency>,
    pub parallel_dependencies: Vec<Dependency>,
    pub body: String,
    pub span: Span,
}

/// A task named in a `depends=[..]` or `depends_parallel=[..]` list.
#[derive(Debug, Clone)]
pub struct Dependency {
    pub name: String,
    pub span: Span,
}

/// A parameter of a task, with its default value if it has one.
#[derive(Debug, Clone)]
pub struct Param {
    pub name: String,
    pub default: Option<String>,
    pub span: Span,
}

/// An `alias name=value` line.
#[derive(Debug, Clone)]
pub struct Alias {
    pub name: String,
    pub value: String,
    pub span: Span,
}

/// An `export KEY=value` line.
#[derive(Debug, Clone)]
pub struct Export {
    pub key: String,
    pub value: String,
    pub span: Span,
}

/// An `include path` line.
#[derive(Debug, Clone)]
pub struct Include {
    pub path: String,
    pub span: Span,
}

/// A `dotenv path` line.
#[derive(Debug, Clone)]
pub struct DotEnv {
    pub path: String,
    pub span: Span,
}

/// Everything that a Taskfile declares, and the diagnostics found in it.
#[derive(Debug, Clone)]
pub struct Ast {
    pub tasks: Vec<Task>,
    pub aliases: Vec<Alias>,
    pub exports: Vec<Export>,
    pub includes: Vec<Include>,
    pub dotenv: Vec<DotEnv>,
    pub diagnostics: Vec<Diagnostic>,
}

// ---------------------------------------------------------------------------
// Models
/// The model of a `Diagnostic`.
pub struct DiagnosticModel {
    pub span: Span,
    pub message: Seq<char>,
    pub severity: DiagnosticSeverity,
}

/// The model of a `Dependency`.
pub struct DependencyModel {
    pub name: Seq<char>,
    pub span: Span,
}

/// The model of a `Param`.
pub struct ParamModel {
    pub name: Seq<char>,
    pub default: Option<Seq<char>>,
    pub span: Span,
}

/// The model of a `Task`.
pub struct TaskModel {
    pub name: Seq<char>,
    pub name_span: Span,
    pub description: Option<Seq<char>>,
    pub confirm: Option<Seq<char>>,
    pub params: Seq<ParamModel>,
    pub dependencies: Seq<DependencyModel>,
    pub parallel_dependencies: Seq<DependencyModel>,
    pub body: Seq<char>,
    pub span: Span,
}

/// The model of an `Alias`.
pub struct AliasModel {
    pub name: Seq<char>,
    pub value: Seq<char>,
    pub span: Span,
}

/// The model of an `Export`.
pub struct ExportModel {
    pub key: Seq<char>,
    pub value: Seq<char>,
    pub span: Span,
}

/// The model of an `Include` or a `DotEnv`: a path and where it stands.
pub struct PathModel {
    pub path: Seq<char>,
    pub span: Span,
}

/// The model of an `Ast`.
pub struct AstModel {
    pub tasks: Seq<TaskModel>,
    pub aliases: Seq<AliasModel>,
    pub exports: Seq<ExportModel>,
    pub includes: Seq<PathModel>,
    pub dotenv: Seq<PathModel>,
    pub diagnostics: Seq<DiagnosticModel>,
}

/// The model of an optional string.
pub open spec fn opt_view(o: Option<String>) -> Option<Seq<char>> {
    match o {
        Some(s) => Some(s@),
        None => None,
    }
}

impl View for Diagnostic {
    type V = DiagnosticModel;

    open spec fn view(&self) -> DiagnosticModel {
        DiagnosticModel { span: self.span, message: self.message@, severity: self.severity }
    }
}

impl View for Dependency {
    type V = DependencyModel;

    open spec fn view(&self) -> DependencyModel {
        DependencyModel { name: self.name@, span: self.span }
    }
}

impl View for Param {
    type V = ParamModel;

    open spec fn view(&self) -> ParamModel {
        ParamModel { name: self.name@, default: opt_view(self.default), span: self.span }
    }
}

/// The models of a sequence of parameters.
pub open spec fn params_view(v: Seq<Param>) -> Seq<ParamModel> {
    Seq::new(v.len(), |i: int| v[i]@)
}

/// The models of a sequence of dependencies.
pub open spec fn deps_view(v: Seq<Dependency>) -> Seq<DependencyModel> {
    Seq::new(v.len(), |i: int| v[i]@)
}

impl View for Task {
    type V = TaskModel;

    open spec fn view(&self) -> TaskModel {
        TaskModel {
            name: self.name@,
            name_span: self.name_span,
            description: opt_view(self.description),
            confirm: opt_view(self.confirm),
            params: params_view(self.params@),
            dependencies: deps_view(self.dependencies@),
            parallel_dependencies: deps_view(self.parallel_dependencies@),
            body: self.body@,
            span: self.span,
        }
    }
}

impl View for Alias {
    type V = AliasModel;

    open spec fn view(&self) -> AliasModel {
        AliasModel { name: self.name@, value: self.value@, span: self.span }
    }
}

impl View for Export {
    type V = ExportModel;

    open spec fn view(&self) -> ExportModel {
        ExportModel { key: self.key@, value: self.value@, span: self.span }
    }
}

impl View for Include {
    type V = PathModel;

    open spec fn view(&self) -> PathModel {
        PathModel { path: self.path@, span: self.span }
    }
}

impl View for DotEnv {
    type V = PathModel;

    open spec fn view(&self) -> PathModel {
        PathModel { path: self.path@, span: self.span }
    }
}

/// The models of a sequence of tasks.
pub open spec fn tasks_view(v: Seq<Task>) -> Seq<TaskModel> {
    Seq::new(v.len(), |i: int| v[i]@)
}

/// The models of a sequence of aliases.
pub open spec fn aliases_view(v: Seq<Alias>) -> Seq<AliasModel> {
    Seq::new(v.len(), |i: int| v[i]@)
}

/// The models of a sequence of exports.
pub open spec fn exports_view(v: Seq<Export>) -> Seq<ExportModel> {
    Seq::new(v.len(), |i: int| v[i]@)
}

/// The models of a sequence of includes.
pub open spec fn includes_view(v: Seq<Include>) -> Seq<PathModel> {
    Seq::new(v.len(), |i: int| v[i]@)
}

/// The models of a sequence of dotenv lines.
pub open spec fn dotenvs_view(v: Seq<DotEnv>) -> Seq<PathModel> {
    Seq::new(v.len(), |i: int| v[i]@)
}

/// The models of a sequence of diagnostics.
pub open spec fn diagnostics_view(v: Seq<Diagnostic>) -> Seq<DiagnosticModel> {
    Seq::new(v.len(), |i: int| v[i]@)
}

impl View for Ast {
    type V = AstModel;

    open spec fn view(&self) -> AstModel {
        AstModel {
            tasks: tasks_view(self.tasks@),
            aliases: aliases_view(self.aliases@),
            exports: exports_view(self.exports@),
            includes: includes_view(self.includes@),
            dotenv: dotenvs_view(self.dotenv@),
            diagnostics: diagnostics_view(self.diagnostics@),
        }
    }
}

/// How a parameter is shown: `name="default"`, or the bare name.
pub open spec fn param_text(p: ParamModel) -> Seq<char> {
    match p.default {
        Some(d) => p.name + "=\""@ + d + "\""@,
        None => p.name,
    }
}

impl Param {
    /// The parameter as it is shown to a user: `name="default"`, or the bare name.
    pub fn to_string(&self) -> (r: String)
        ensures
            r@ == param_text(self@),
    {
        let mut s = string_of(self.name.as_str());
        match &self.default {
            Some(d) => {
                s.append("=\"");
                s.append(d.as_str());
                s.append("\"");
            },
            None => {},
        }
        s
    }
}

} // verus!
