//! The language-server values that the features compute, as plain types.

use vstd::prelude::*;
use vstd::string::*;

use crate::document::Document;
use crate::strings::{at_char, byte_len, opt_view, views};
use crate::text::{law_offset_of_position, lemma_position_bound, offset_of, position_of};

verus! {

/// A place in a document: 0-based line, 0-based UTF-16 column.
#[derive(Debug, Clone, Copy, PartialEq, Eq, Structural)]
pub struct Position {
    pub line: u32,
    pub character: u32,
}

/// A half-open part of a document.
#[derive(Debug, Clone, Copy, PartialEq, Eq, Structural)]
pub struct Range {
    pub start: Position,
    pub end: Position,
}

/// The position of a byte offset.
pub open spec fn place(text: Seq<char>, offset: int) -> Position {
    Position {
        line: position_of(text, offset).0 as u32,
        character: position_of(text, offset).1 as u32,
    }
}

/// The range of the bytes `start..end`.
pub open spec fn range_of(text: Seq<char>, start: int, end: int) -> Range {
    Range { start: place(text, start), end: place(text, end) }
}

/// The bytes that a range stands for.
pub open spec fn range_bytes(text: Seq<char>, range: Range) -> (int, int) {
    (
        offset_of(text, range.start.line as int, range.start.character as int),
        offset_of(text, range.end.line as int, range.end.character as int),
    )
}

/// The range of bytes that start and end at characters stands for those bytes.
pub proof fn law_range_round_trip(text: Seq<char>, start: int, end: int)
    requires
        byte_len(text) <= u32::MAX,
        at_char(text, start),
        at_char(text, end),
    ensures
        range_bytes(text, range_of(text, start, end)) == (start, end),
{
    lemma_position_bound(text, start);
    lemma_position_bound(text, end);
    law_offset_of_position(text, start);
    law_offset_of_position(text, end);
}

/// The position of a byte offset.
pub fn byte_position(doc: &Document, offset: usize) -> (r: Position)
    requires
        doc.wf(),
    ensures
        r == place(doc@.text, offset as int),
{
    let (line, character) = doc.position_at(offset);
    Position { line, character }
}

/// Byte range -> LSP range via the document's UTF-16 line index.
pub fn byte_range(doc: &Document, start: usize, end: usize) -> (r: Range)
    requires
        doc.wf(),
    ensures
        r == range_of(doc@.text, start as int, end as int),
{
    Range { start: byte_position(doc, start), end: byte_position(doc, end) }
}

/// A range in a document.
#[derive(Debug, Clone, PartialEq, Eq)]
pub struct Location {
    pub uri: String,
    pub range: Range,
}

pub struct LocationFacts {
    pub uri: Seq<char>,
    pub range: Range,
}

impl View for Location {
    type V = LocationFacts;

    open spec fn view(&self) -> LocationFacts {
        LocationFacts { uri: self.uri@, range: self.range }
    }
}

/// The replacement of a range by a text.
#[derive(Debug, Clone, PartialEq, Eq)]
pub struct TextEdit {
    pub range: Range,
    pub new_text: String,
}

pub struct EditTextFacts {
    pub range: Range,
    pub new_text: Seq<char>,
}

impl View for TextEdit {
    type V = EditTextFacts;

    open spec fn view(&self) -> EditTextFacts {
        EditTextFacts { range: self.range, new_text: self.new_text@ }
    }
}

/// Edits to one document.
#[derive(Debug, Clone, PartialEq, Eq)]
pub struct WorkspaceEdit {
    pub uri: String,
    pub edits: Vec<TextEdit>,
}

pub struct WorkspaceEditFacts {
    pub uri: Seq<char>,
    pub edits: Seq<EditTextFacts>,
}

impl View for WorkspaceEdit {
    type V = WorkspaceEditFacts;

    open spec fn view(&self) -> WorkspaceEditFacts {
        WorkspaceEditFacts { uri: self.uri@, edits: views(self.edits@) }
    }
}

#[derive(Debug, Clone, Copy, PartialEq, Eq, Structural)]
pub enum DiagnosticSeverity {
    Error,
    Warning,
    Information,
}

/// A diagnostic as an editor shows it.
#[derive(Debug, Clone, PartialEq, Eq)]
pub struct EditorDiagnostic {
    pub range: Range,
    pub severity: Option<DiagnosticSeverity>,
    pub code: Option<String>,
    pub source: Option<String>,
    pub message: String,
}

pub struct EditorDiagFacts {
    pub range: Range,
    pub severity: Option<DiagnosticSeverity>,
    pub code: Option<Seq<char>>,
    pub source: Option<Seq<char>>,
    pub message: Seq<char>,
}

impl View for EditorDiagnostic {
    type V = EditorDiagFacts;

    open spec fn view(&self) -> EditorDiagFacts {
        EditorDiagFacts {
            range: self.range,
            severity: self.severity,
            code: opt_view(self.code),
            source: opt_view(self.source),
            message: self.message@,
        }
    }
}

/// Markdown to show for what is under the cursor.
#[derive(Debug, Clone, PartialEq, Eq)]
pub struct Hover {
    pub value: String,
}

impl View for Hover {
    type V = Seq<char>;

    open spec fn view(&self) -> Seq<char> {
        self.value@
    }
}

#[derive(Debug, Clone, Copy, PartialEq, Eq, Structural)]
pub enum CompletionItemKind {
    Function,
    Variable,
    Constant,
    Keyword,
    Module,
    Struct,
    Enum,
}

#[derive(Debug, Clone, PartialEq, Eq)]
pub struct CompletionItem {
    pub label: String,
    pub kind: CompletionItemKind,
    pub detail: Option<String>,
}

pub struct ItemFacts {
    pub label: Seq<char>,
    pub kind: CompletionItemKind,
    pub detail: Option<Seq<char>>,
}

impl View for CompletionItem {
    type V = ItemFacts;

    open spec fn view(&self) -> ItemFacts {
        ItemFacts { label: self.label@, kind: self.kind, detail: opt_view(self.detail) }
    }
}

#[derive(Debug, Clone, PartialEq, Eq)]
pub struct ParameterInformation {
    pub label: String,
    pub documentation: Option<String>,
}

pub struct ParameterFacts {
    pub label: Seq<char>,
    pub documentation: Option<Seq<char>>,
}

impl View for ParameterInformation {
    type V = ParameterFacts;

    open spec fn view(&self) -> ParameterFacts {
        ParameterFacts { label: self.label@, documentation: opt_view(self.documentation) }
    }
}

#[derive(Debug, Clone, PartialEq, Eq)]
pub struct SignatureInformation {
    pub label: String,
    pub documentation: Option<String>,
    pub parameters: Vec<ParameterInformation>,
    pub active_parameter: Option<u32>,
}

pub struct SignatureFacts {
    pub label: Seq<char>,
    pub documentation: Option<Seq<char>>,
    pub parameters: Seq<ParameterFacts>,
    pub active_parameter: Option<u32>,
}

impl View for SignatureInformation {
    type V = SignatureFacts;

    open spec fn view(&self) -> SignatureFacts {
        SignatureFacts {
            label: self.label@,
            documentation: opt_view(self.documentation),
            parameters: views(self.parameters@),
            active_parameter: self.active_parameter,
        }
    }
}

#[derive(Debug, Clone, PartialEq, Eq)]
pub struct SignatureHelp {
    pub signatures: Vec<SignatureInformation>,
    pub active_signature: Option<u32>,
    pub active_parameter: Option<u32>,
}

pub struct SignatureHelpFacts {
    pub signatures: Seq<SignatureFacts>,
    pub active_signature: Option<u32>,
    pub active_parameter: Option<u32>,
}

impl View for SignatureHelp {
    type V = SignatureHelpFacts;

    open spec fn view(&self) -> SignatureHelpFacts {
        SignatureHelpFacts {
            signatures: views(self.signatures@),
            active_signature: self.active_signature,
            active_parameter: self.active_parameter,
        }
    }
}

#[derive(Debug, Clone, Copy, PartialEq, Eq, Structural)]
pub enum OutlineKind {
    Function,
    Variable,
    Struct,
    Enum,
}

/// One entry of a document's outline.
#[derive(Debug, Clone, PartialEq, Eq)]
pub struct DocumentSymbol {
    pub name: String,
    pub kind: OutlineKind,
    pub range: Range,
    pub selection_range: Range,
}

pub struct OutlineFacts {
    pub name: Seq<char>,
    pub kind: OutlineKind,
    pub range: Range,
    pub selection_range: Range,
}

impl View for DocumentSymbol {
    type V = OutlineFacts;

    open spec fn view(&self) -> OutlineFacts {
        OutlineFacts {
            name: self.name@,
            kind: self.kind,
            range: self.range,
            selection_range: self.selection_range,
        }
    }
}

/// A symbol of some open document.
#[derive(Debug, Clone, PartialEq, Eq)]
pub struct SymbolInformation {
    pub name: String,
    pub kind: OutlineKind,
    pub location: Location,
}

pub struct SymbolInformationFacts {
    pub name: Seq<char>,
    pub kind: OutlineKind,
    pub location: LocationFacts,
}

impl View for SymbolInformation {
    type V = SymbolInformationFacts;

    open spec fn view(&self) -> SymbolInformationFacts {
        SymbolInformationFacts { name: self.name@, kind: self.kind, location: self.location@ }
    }
}

/// Lines that can be folded together.
#[derive(Debug, Clone, Copy, PartialEq, Eq, Structural)]
pub struct FoldingRange {
    pub start_line: u32,
    pub end_line: u32,
}

/// The name of a parameter, shown before its argument.
#[derive(Debug, Clone, PartialEq, Eq)]
pub struct InlayHint {
    pub position: Position,
    pub label: String,
}

pub struct InlayFacts {
    pub position: Position,
    pub label: Seq<char>,
}

impl View for InlayHint {
    type V = InlayFacts;

    open spec fn view(&self) -> InlayFacts {
        InlayFacts { position: self.position, label: self.label@ }
    }
}

/// One semantic token, placed relative to the one before it.
#[derive(Debug, Clone, Copy, PartialEq, Eq, Structural)]
pub struct SemanticToken {
    pub delta_line: u32,
    pub delta_start: u32,
    pub length: u32,
    pub token_type: u32,
    pub token_modifiers_bitset: u32,
}

/// The token types and modifiers that tokens refer to by index.
#[derive(Debug, Clone, PartialEq, Eq)]
pub struct SemanticTokensLegend {
    pub token_types: Vec<&'static str>,
    pub token_modifiers: Vec<&'static str>,
}

/// A fix for the diagnostic of that index.
#[derive(Debug, Clone, PartialEq, Eq)]
pub struct CodeAction {
    pub title: String,
    pub diagnostic: usize,
    pub edit: WorkspaceEdit,
}

pub struct CodeActionFacts {
    pub title: Seq<char>,
    pub diagnostic: int,
    pub edit: WorkspaceEditFacts,
}

impl View for CodeAction {
    type V = CodeActionFacts;

    open spec fn view(&self) -> CodeActionFacts {
        CodeActionFacts {
            title: self.title@,
            diagnostic: self.diagnostic as int,
            edit: self.edit@,
        }
    }
}

}
