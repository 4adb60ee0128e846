use vstd::prelude::*;

verus! {

/// A function or method declaration.
#[derive(Debug, Clone, Default, PartialEq, Eq)]
pub struct FunctionRow {
    pub file: String,
    pub line: usize,
    pub name: String,
    pub visibility: String,
    pub param_count: usize,
    pub return_type: String,
    pub complexity: usize,
    pub has_test: bool,
}

/// A call site: who calls what, and whether the callee is a qualified (external) name.
#[derive(Debug, Clone, Default, PartialEq, Eq)]
pub struct CallRow {
    pub file: String,
    pub line: usize,
    pub caller: String,
    pub callee: String,
    pub is_external: bool,
}

#[derive(Debug, Clone, Default, PartialEq, Eq)]
pub struct ImportRow {
    pub file: String,
    pub line: usize,
    pub module: String,
    pub alias: String,
    pub is_std: bool,
}

/// A struct, class or other record type, with the comma-separated list of what it
/// implements.
#[derive(Debug, Clone, Default, PartialEq, Eq)]
pub struct StructRow {
    pub file: String,
    pub line: usize,
    pub name: String,
    pub field_count: usize,
    pub visibility: String,
    pub implements: String,
}

#[derive(Debug, Clone, Default, PartialEq, Eq)]
pub struct VariableRow {
    pub file: String,
    pub line: usize,
    pub name: String,
    pub type_hint: String,
    pub scope: String,
    pub is_mutated: bool,
}

/// A comment and the declaration it documents, if any.
#[derive(Debug, Clone, Default, PartialEq, Eq)]
pub struct CommentRow {
    pub file: String,
    pub line: usize,
    pub text: String,
    pub attached_to: String,
    pub is_doc: bool,
}

/// Structural counts of one function body.
#[derive(Debug, Clone, Default, PartialEq, Eq)]
pub struct FingerprintRow {
    pub file: String,
    pub line: usize,
    pub name: String,
    pub param_count: usize,
    pub complexity: usize,
    pub nesting_depth: usize,
    pub branch_count: usize,
    pub loop_count: usize,
    pub call_count: usize,
    pub unique_callee_count: usize,
    pub return_count: usize,
    pub stmt_count: usize,
    pub has_error_handling: bool,
}

/// One distinct callee of a function.
#[derive(Debug, Clone, Default, PartialEq, Eq)]
pub struct CallSetRow {
    pub file: String,
    pub line: usize,
    pub name: String,
    pub callee: String,
}

/// The rows extracted from one or more source files.
#[derive(Debug, Clone, Default, PartialEq, Eq)]
pub struct TableBatch {
    pub current_file: String,
    pub functions: Vec<FunctionRow>,
    pub calls: Vec<CallRow>,
    pub imports: Vec<ImportRow>,
    pub structs: Vec<StructRow>,
    pub variables: Vec<VariableRow>,
    pub comments: Vec<CommentRow>,
    pub fingerprints: Vec<FingerprintRow>,
    pub callsets: Vec<CallSetRow>,
}

impl TableBatch {
    /// An empty batch whose rows will belong to `file`.
    pub fn new(file: &str) -> (b: TableBatch)
        ensures
            b.current_file@ == file@,
            b.functions@.len() == 0,
            b.calls@.len() == 0,
            b.imports@.len() == 0,
            b.structs@.len() == 0,
            b.variables@.len() == 0,
            b.comments@.len() == 0,
            b.fingerprints@.len() == 0,
            b.callsets@.len() == 0,
    {
        TableBatch {
            current_file: file.to_owned(),
            functions: Vec::new(),
            calls: Vec::new(),
            imports: Vec::new(),
            structs: Vec::new(),
            variables: Vec::new(),
            comments: Vec::new(),
            fingerprints: Vec::new(),
            callsets: Vec::new(),
        }
    }

    /// Appends every table of `other` to the matching table of this batch.
    pub fn extend(&mut self, other: TableBatch)
        ensures
            final(self).current_file == old(self).current_file,
            final(self).functions@ == old(self).functions@ + other.functions@,
            final(self).calls@ == old(self).calls@ + other.calls@,
            final(self).imports@ == old(self).imports@ + other.imports@,
            final(self).structs@ == old(self).structs@ + other.structs@,
            final(self).variables@ == old(self).variables@ + other.variables@,
            final(self).comments@ == old(self).comments@ + other.comments@,
            final(self).fingerprints@ == old(self).fingerprints@ + other.fingerprints@,
            final(self).callsets@ == old(self).callsets@ + other.callsets@,
    {
        let mut other = other;
        self.functions.append(&mut other.functions);
        self.calls.append(&mut other.calls);
        self.imports.append(&mut other.imports);
        self.structs.append(&mut other.structs);
        self.variables.append(&mut other.variables);
        self.comments.append(&mut other.comments);
        self.fingerprints.append(&mut other.fingerprints);
        self.callsets.append(&mut other.callsets);
    }
}


// ---------------------------------------------------------------------------
// Views: each row with its strings as character sequences.
// ---------------------------------------------------------------------------

pub struct SpecFunctionRow {
    pub file: Seq<char>,
    pub line: usize,
    pub name: Seq<char>,
    pub visibility: Seq<char>,
    pub param_count: usize,
    pub return_type: Seq<char>,
    pub complexity: usize,
    pub has_test: bool,
}

pub struct SpecCallRow {
    pub file: Seq<char>,
    pub line: usize,
    pub caller: Seq<char>,
    pub callee: Seq<char>,
    pub is_external: bool,
}

pub struct SpecImportRow {
    pub file: Seq<char>,
    pub line: usize,
    pub module: Seq<char>,
    pub alias: Seq<char>,
    pub is_std: bool,
}

pub struct SpecStructRow {
    pub file: Seq<char>,
    pub line: usize,
    pub name: Seq<char>,
    pub field_count: usize,
    pub visibility: Seq<char>,
    pub implements: Seq<char>,
}

pub struct SpecVariableRow {
    pub file: Seq<char>,
    pub line: usize,
    pub name: Seq<char>,
    pub type_hint: Seq<char>,
    pub scope: Seq<char>,
    pub is_mutated: bool,
}

pub struct SpecCommentRow {
    pub file: Seq<char>,
    pub line: usize,
    pub text: Seq<char>,
    pub attached_to: Seq<char>,
    pub is_doc: bool,
}

pub struct SpecFingerprintRow {
    pub file: Seq<char>,
    pub line: usize,
    pub name: Seq<char>,
    pub param_count: usize,
    pub complexity: usize,
    pub nesting_depth: usize,
    pub branch_count: usize,
    pub loop_count: usize,
    pub call_count: usize,
    pub unique_callee_count: usize,
    pub return_count: usize,
    pub stmt_count: usize,
    pub has_error_handling: bool,
}

impl View for FunctionRow {
    type V = SpecFunctionRow;

    open spec fn view(&self) -> SpecFunctionRow {
        SpecFunctionRow {
            file: self.file@,
            line: self.line,
            name: self.name@,
            visibility: self.visibility@,
            param_count: self.param_count,
            return_type: self.return_type@,
            complexity: self.complexity,
            has_test: self.has_test,
        }
    }
}

impl View for CallRow {
    type V = SpecCallRow;

    open spec fn view(&self) -> SpecCallRow {
        SpecCallRow {
            file: self.file@,
            line: self.line,
            caller: self.caller@,
            callee: self.callee@,
            is_external: self.is_external,
        }
    }
}

impl View for ImportRow {
    type V = SpecImportRow;

    open spec fn view(&self) -> SpecImportRow {
        SpecImportRow {
            file: self.file@,
            line: self.line,
            module: self.module@,
            alias: self.alias@,
            is_std: self.is_std,
        }
    }
}

impl View for StructRow {
    type V = SpecStructRow;

    open spec fn view(&self) -> SpecStructRow {
        SpecStructRow {
            file: self.file@,
            line: self.line,
            name: self.name@,
            field_count: self.field_count,
            visibility: self.visibility@,
            implements: self.implements@,
        }
    }
}

impl View for VariableRow {
    type V = SpecVariableRow;

    open spec fn view(&self) -> SpecVariableRow {
        SpecVariableRow {
            file: self.file@,
            line: self.line,
            name: self.name@,
            type_hint: self.type_hint@,
            scope: self.scope@,
            is_mutated: self.is_mutated,
        }
    }
}

impl View for CommentRow {
    type V = SpecCommentRow;

    open spec fn view(&self) -> SpecCommentRow {
        SpecCommentRow {
            file: self.file@,
            line: self.line,
            text: self.text@,
            attached_to: self.attached_to@,
            is_doc: self.is_doc,
        }
    }
}

impl View for FingerprintRow {
    type V = SpecFingerprintRow;

    open spec fn view(&self) -> SpecFingerprintRow {
        SpecFingerprintRow {
            file: self.file@,
            line: self.line,
            name: self.name@,
            param_count: self.param_count,
            complexity: self.complexity,
            nesting_depth: self.nesting_depth,
            branch_count: self.branch_count,
            loop_count: self.loop_count,
            call_count: self.call_count,
            unique_callee_count: self.unique_callee_count,
            return_count: self.return_count,
            stmt_count: self.stmt_count,
            has_error_handling: self.has_error_handling,
        }
    }
}
} // verus!
