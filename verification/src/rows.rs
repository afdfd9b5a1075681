//! The rows of the database tables that store an index.
use crate::text;
use crate::types::copy_opt;
use vstd::prelude::*;

verus! {

/// A row of the table of indexed files.
#[derive(Debug)]
pub struct FileRow {
    pub id: i64,
    pub path: String,
    pub language: String,
    pub checksum: Option<String>,
    pub symbols_checksum: Option<String>,
}

/// A row of the table of indexed files.
pub struct FileRowView {
    pub id: i64,
    pub path: Seq<char>,
    pub language: Seq<char>,
    pub checksum: Option<Seq<char>>,
    pub symbols_checksum: Option<Seq<char>>,
}

impl View for FileRow {
    type V = FileRowView;

    open spec fn view(&self) -> FileRowView {
        FileRowView {
            id: self.id,
            path: self.path@,
            language: self.language@,
            checksum: text::view_opt(self.checksum),
            symbols_checksum: text::view_opt(self.symbols_checksum),
        }
    }
}

impl Clone for FileRow {
    fn clone(&self) -> (r: Self)
        ensures
            r@ == self@,
    {
        FileRow {
            id: self.id,
            path: self.path.clone(),
            language: self.language.clone(),
            checksum: copy_opt(&self.checksum),
            symbols_checksum: copy_opt(&self.symbols_checksum),
        }
    }
}

/// A row of the table of definitions.
#[derive(Debug)]
pub struct DefinitionRow {
    pub id: i64,
    pub name: String,
    pub qualified_name: String,
    pub kind: String,
    pub file_id: Option<i64>,
    pub line: i64,
    pub column: i64,
    pub end_line: i64,
    pub end_column: i64,
    pub parent_name: Option<String>,
    pub signature: Option<String>,
    pub visibility: String,
    pub is_definition: i64,
    pub extra: Option<String>,
}

/// A row of the table of definitions.
pub struct DefinitionRowView {
    pub id: i64,
    pub name: Seq<char>,
    pub qualified_name: Seq<char>,
    pub kind: Seq<char>,
    pub file_id: Option<i64>,
    pub line: i64,
    pub column: i64,
    pub end_line: i64,
    pub end_column: i64,
    pub parent_name: Option<Seq<char>>,
    pub signature: Option<Seq<char>>,
    pub visibility: Seq<char>,
    pub is_definition: i64,
    pub extra: Option<Seq<char>>,
}

impl View for DefinitionRow {
    type V = DefinitionRowView;

    open spec fn view(&self) -> DefinitionRowView {
        DefinitionRowView {
            id: self.id,
            name: self.name@,
            qualified_name: self.qualified_name@,
            kind: self.kind@,
            file_id: self.file_id,
            line: self.line,
            column: self.column,
            end_line: self.end_line,
            end_column: self.end_column,
            parent_name: text::view_opt(self.parent_name),
            signature: text::view_opt(self.signature),
            visibility: self.visibility@,
            is_definition: self.is_definition,
            extra: text::view_opt(self.extra),
        }
    }
}

impl Clone for DefinitionRow {
    fn clone(&self) -> (r: Self)
        ensures
            r@ == self@,
    {
        DefinitionRow {
            id: self.id,
            name: self.name.clone(),
            qualified_name: self.qualified_name.clone(),
            kind: self.kind.clone(),
            file_id: self.file_id,
            line: self.line,
            column: self.column,
            end_line: self.end_line,
            end_column: self.end_column,
            parent_name: copy_opt(&self.parent_name),
            signature: copy_opt(&self.signature),
            visibility: self.visibility.clone(),
            is_definition: self.is_definition,
            extra: copy_opt(&self.extra),
        }
    }
}

/// A row of the table of references.
#[derive(Debug)]
pub struct RefRow {
    pub id: i64,
    pub name: String,
    pub kind: String,
    pub file_id: Option<i64>,
    pub line: i64,
    pub column: i64,
    pub def_id: Option<i64>,
    pub context: Option<String>,
}

/// A row of the table of references.
pub struct RefRowView {
    pub id: i64,
    pub name: Seq<char>,
    pub kind: Seq<char>,
    pub file_id: Option<i64>,
    pub line: i64,
    pub column: i64,
    pub def_id: Option<i64>,
    pub context: Option<Seq<char>>,
}

impl View for RefRow {
    type V = RefRowView;

    open spec fn view(&self) -> RefRowView {
        RefRowView {
            id: self.id,
            name: self.name@,
            kind: self.kind@,
            file_id: self.file_id,
            line: self.line,
            column: self.column,
            def_id: self.def_id,
            context: text::view_opt(self.context),
        }
    }
}

impl Clone for RefRow {
    fn clone(&self) -> (r: Self)
        ensures
            r@ == self@,
    {
        RefRow {
            id: self.id,
            name: self.name.clone(),
            kind: self.kind.clone(),
            file_id: self.file_id,
            line: self.line,
            column: self.column,
            def_id: self.def_id,
            context: copy_opt(&self.context),
        }
    }
}

/// A row of the call graph.
#[derive(Debug)]
pub struct CallRow {
    pub id: i64,
    pub caller_id: Option<i64>,
    pub callee_id: Option<i64>,
    pub caller_name: String,
    pub callee_name: String,
    pub file_id: Option<i64>,
    pub line: i64,
    pub column: i64,
}

/// A row of the call graph.
pub struct CallRowView {
    pub id: i64,
    pub caller_id: Option<i64>,
    pub callee_id: Option<i64>,
    pub caller_name: Seq<char>,
    pub callee_name: Seq<char>,
    pub file_id: Option<i64>,
    pub line: i64,
    pub column: i64,
}

impl View for CallRow {
    type V = CallRowView;

    open spec fn view(&self) -> CallRowView {
        CallRowView {
            id: self.id,
            caller_id: self.caller_id,
            callee_id: self.callee_id,
            caller_name: self.caller_name@,
            callee_name: self.callee_name@,
            file_id: self.file_id,
            line: self.line,
            column: self.column,
        }
    }
}

impl Clone for CallRow {
    fn clone(&self) -> (r: Self)
        ensures
            r@ == self@,
    {
        CallRow {
            id: self.id,
            caller_id: self.caller_id,
            callee_id: self.callee_id,
            caller_name: self.caller_name.clone(),
            callee_name: self.callee_name.clone(),
            file_id: self.file_id,
            line: self.line,
            column: self.column,
        }
    }
}

/// A row of the table of inheritance edges.
#[derive(Debug)]
pub struct InheritRow {
    pub id: i64,
    pub derived_id: Option<i64>,
    pub base_id: Option<i64>,
    pub file_id: Option<i64>,
    pub derived_name: String,
    pub base_name: String,
    pub access: String,
    pub is_virtual: i64,
}

/// A row of the table of inheritance edges.
pub struct InheritRowView {
    pub id: i64,
    pub derived_id: Option<i64>,
    pub base_id: Option<i64>,
    pub file_id: Option<i64>,
    pub derived_name: Seq<char>,
    pub base_name: Seq<char>,
    pub access: Seq<char>,
    pub is_virtual: i64,
}

impl View for InheritRow {
    type V = InheritRowView;

    open spec fn view(&self) -> InheritRowView {
        InheritRowView {
            id: self.id,
            derived_id: self.derived_id,
            base_id: self.base_id,
            file_id: self.file_id,
            derived_name: self.derived_name@,
            base_name: self.base_name@,
            access: self.access@,
            is_virtual: self.is_virtual,
        }
    }
}

impl Clone for InheritRow {
    fn clone(&self) -> (r: Self)
        ensures
            r@ == self@,
    {
        InheritRow {
            id: self.id,
            derived_id: self.derived_id,
            base_id: self.base_id,
            file_id: self.file_id,
            derived_name: self.derived_name.clone(),
            base_name: self.base_name.clone(),
            access: self.access.clone(),
            is_virtual: self.is_virtual,
        }
    }
}

/// The tables of a database, each with its rows in the order of their numbers.
#[derive(Debug)]
pub struct Tables {
    pub files: Vec<FileRow>,
    pub definitions: Vec<DefinitionRow>,
    pub refs: Vec<RefRow>,
    pub calls: Vec<CallRow>,
    pub inherits: Vec<InheritRow>,
}

/// The tables of a database.
pub struct TablesView {
    pub files: Seq<FileRowView>,
    pub definitions: Seq<DefinitionRowView>,
    pub refs: Seq<RefRowView>,
    pub calls: Seq<CallRowView>,
    pub inherits: Seq<InheritRowView>,
}

impl View for Tables {
    type V = TablesView;

    open spec fn view(&self) -> TablesView {
        TablesView {
            files: text::views(self.files@),
            definitions: text::views(self.definitions@),
            refs: text::views(self.refs@),
            calls: text::views(self.calls@),
            inherits: text::views(self.inherits@),
        }
    }
}

} // verus!
