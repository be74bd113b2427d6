//! Hover: documentation for what is under the cursor.

use vstd::prelude::*;
use vstd::string::*;

use crate::builtins::{constant, function, variable, BuiltinFunction, Builtins};
use crate::document::Document;
use crate::features::words::{word_at, word_of};
use crate::imports::{import_table, imports_of, EntryFacts, ImportEntry};
use crate::lsp::{Hover, Position};
use crate::strings::{concat3, opt_view, str_eq, views};
use crate::syntax::Model;
use crate::text::offset_of;

verus! {

/// A Pine code block in markdown.
pub open spec fn code_block(code: Seq<char>) -> Seq<char> {
    "```pine\n"@ + code + "\n```"@
}

/// A code block, followed by a description where there is one.
pub open spec fn block_with(code: Seq<char>, description: Seq<char>) -> Seq<char> {
    if description.len() == 0 {
        code_block(code)
    } else {
        code_block(code) + "\n\n"@ + description
    }
}

/// What is shown of a function: its syntax, or else its name.
pub open spec fn function_head(f: BuiltinFunction) -> Seq<char> {
    if f.syntax@.len() == 0 {
        f.name@
    } else {
        f.syntax@
    }
}

/// The documentation of a builtin: functions come first, then variables, then
/// constants.
pub open spec fn builtin_doc_of(db: Builtins, word: Seq<char>) -> Option<Seq<char>> {
    match (db.function_at(word), db.variable_at(word), db.constant_at(word)) {
        (Some(i), _, _) => Some(
            block_with(function_head(db.functions@[i]), db.functions@[i].description@),
        ),
        (None, Some(i), _) => Some(
            block_with(
                db.variables@[i].name@ + ": "@ + db.variables@[i].ty@,
                db.variables@[i].description@,
            ),
        ),
        (None, None, Some(i)) => Some(
            block_with(
                db.constants@[i].name@ + ": "@ + db.constants@[i].ty@,
                match db.constants@[i].description {
                    Some(d) => d@,
                    None => Seq::empty(),
                },
            ),
        ),
        _ => None,
    }
}

/// The statement that an import was declared by: `as` only where it has one.
pub open spec fn import_statement(entry: EntryFacts) -> Seq<char> {
    let path = "import "@ + entry.user + "/"@ + entry.lib + "/"@ + entry.version;
    match entry.alias {
        Some(alias) => path + " as "@ + alias,
        None => path,
    }
}

/// The documentation of an import.
pub open spec fn import_doc(entry: EntryFacts) -> Seq<char> {
    code_block(import_statement(entry)) + match entry.source {
        Some(path) => "\n\nSource: "@ + path,
        None => "\n\nNo `/// @source` directive set; cross-file IntelliSense unavailable."@,
    }
}

/// The first import, from `k` on, that code refers to as `word`.
pub open spec fn import_named(entries: Seq<EntryFacts>, word: Seq<char>, k: int) -> Option<int>
    decreases entries.len() - k,
{
    if k >= entries.len() {
        None
    } else if entries[k].namespace() == word {
        Some(k)
    } else {
        import_named(entries, word, k + 1)
    }
}

/// The documentation of a word: that of the builtin, and only where there is
/// none, that of the import.
pub open spec fn word_doc(db: Builtins, m: Model, word: Seq<char>) -> Option<Seq<char>> {
    match builtin_doc_of(db, word) {
        Some(doc) => Some(doc),
        None => match import_named(imports_of(m), word, 0) {
            Some(i) => Some(import_doc(imports_of(m)[i])),
            None => None,
        },
    }
}

/// What is shown at a position.
pub open spec fn hover_of(db: Builtins, m: Model, pos: Position) -> Option<Seq<char>> {
    match word_of(m.text, offset_of(m.text, pos.line as int, pos.character as int)) {
        Some(word) => word_doc(db, m, word),
        None => None,
    }
}

/// An import never changes the documentation of a builtin.
pub proof fn law_builtin_hover_wins(db: Builtins, m: Model, word: Seq<char>)
    requires
        db.has(word),
    ensures
        word_doc(db, m, word) == builtin_doc_of(db, word),
        word_doc(db, m, word) is Some,
{
}

/// What is shown of a function is its syntax, or its name where it has none, in a code
/// block, and its description behind it where it has one.
pub proof fn law_function_hover(db: Builtins, m: Model, word: Seq<char>, i: int)
    requires
        db.function_at(word) == Some(i),
    ensures
        ({
            let f = db.functions@[i];
            let head = if f.syntax@.len() == 0 {
                f.name@
            } else {
                f.syntax@
            };
            let block = "```pine\n"@ + head + "\n```"@;
            word_doc(db, m, word) == Some(
                if f.description@.len() == 0 {
                    block
                } else {
                    block + "\n\n"@ + f.description@
                },
            )
        }),
{
}

/// What is shown of a variable that no function shares its name with is its name, a
/// colon and its type in a code block, and its description behind it where it has one.
pub proof fn law_variable_hover(db: Builtins, m: Model, word: Seq<char>, i: int)
    requires
        db.function_at(word) is None,
        db.variable_at(word) == Some(i),
    ensures
        ({
            let v = db.variables@[i];
            let block = "```pine\n"@ + (v.name@ + ": "@ + v.ty@) + "\n```"@;
            word_doc(db, m, word) == Some(
                if v.description@.len() == 0 {
                    block
                } else {
                    block + "\n\n"@ + v.description@
                },
            )
        }),
{
}

/// The same of a constant that neither a function nor a variable shares its name with.
pub proof fn law_constant_hover(db: Builtins, m: Model, word: Seq<char>, i: int)
    requires
        db.function_at(word) is None,
        db.variable_at(word) is None,
        db.constant_at(word) == Some(i),
    ensures
        ({
            let c = db.constants@[i];
            let block = "```pine\n"@ + (c.name@ + ": "@ + c.ty@) + "\n```"@;
            word_doc(db, m, word) == Some(
                match c.description {
                    Some(d) if d@.len() > 0 => block + "\n\n"@ + d@,
                    _ => block,
                },
            )
        }),
{
}

proof fn lemma_import_named(entries: Seq<EntryFacts>, word: Seq<char>, k: int, i: int)
    requires
        0 <= k <= i <= entries.len(),
        forall|j: int| k <= j < i ==> (#[trigger] entries[j]).namespace() != word,
        i < entries.len() ==> entries[i].namespace() == word,
    ensures
        import_named(entries, word, k) == if i < entries.len() {
            Some(i)
        } else {
            None
        },
    decreases i - k,
{
    if k < i {
        assert(entries[k].namespace() != word);
        lemma_import_named(entries, word, k + 1, i);
    }
}

/// What is shown of a word that is no builtin is the first import that code refers to
/// by it: its statement, with the alias where it has one, and where its source is. A
/// word that is neither shows nothing.
pub proof fn law_import_hover(db: Builtins, m: Model, word: Seq<char>, i: int)
    requires
        db.function_at(word) is None,
        db.variable_at(word) is None,
        db.constant_at(word) is None,
        0 <= i <= imports_of(m).len(),
        forall|j: int| 0 <= j < i ==> (#[trigger] imports_of(m)[j]).namespace() != word,
        i < imports_of(m).len() ==> imports_of(m)[i].namespace() == word,
    ensures
        i == imports_of(m).len() ==> word_doc(db, m, word) is None,
        i < imports_of(m).len() ==> {
            let entry = imports_of(m)[i];
            let path = "import "@ + entry.user + "/"@ + entry.lib + "/"@ + entry.version;
            let statement = match entry.alias {
                Some(alias) => path + " as "@ + alias,
                None => path,
            };
            let block = "```pine\n"@ + statement + "\n```"@;
            word_doc(db, m, word) == Some(
                match entry.source {
                    Some(source) => block + ("\n\nSource: "@ + source),
                    None => block
                        + "\n\nNo `/// @source` directive set; cross-file IntelliSense unavailable."@,
                },
            )
        },
{
    lemma_import_named(imports_of(m), word, 0, i);
}

/// At a position, the word around it is looked up.
pub proof fn law_hover_is_of_the_word(db: Builtins, m: Model, pos: Position)
    ensures
        match word_of(m.text, offset_of(m.text, pos.line as int, pos.character as int)) {
            Some(word) => hover_of(db, m, pos) == word_doc(db, m, word),
            None => hover_of(db, m, pos) is None,
        },
{
}

/// Hover for the builtin (function / variable / constant) under the cursor, or —
/// only when no builtin matches — for an import alias.
pub fn hover_at(db: &Builtins, doc: &Document, pos: Position) -> (r: Option<Hover>)
    requires
        doc.wf(),
    ensures
        opt_view(r) == hover_of(*db, doc@, pos),
{
    let byte: usize = doc.offset_at(pos.line, pos.character);
    let word = match word_at(doc.text(), byte) {
        Some(word) => word,
        None => {
            return None;
        },
    };
    match builtin_doc(db, word.as_str()) {
        Some(value) => Some(Hover { value }),
        None => match import_alias_hover(doc, word.as_str()) {
            Some(value) => Some(Hover { value }),
            None => None,
        },
    }
}

fn append_description(text: &mut String, description: &str)
    ensures
        final(text)@ == if description@.len() == 0 {
            old(text)@
        } else {
            old(text)@ + "\n\n"@ + description@
        },
{
    if !description.is_empty() {
        text.append("\n\n");
        text.append(description);
    }
}

/// Hover markdown for an import whose effective namespace (alias, or lib name
/// when aliasless) equals `word`. `None` when no import matches `word`.
fn import_alias_hover(doc: &Document, word: &str) -> (r: Option<String>)
    requires
        doc.wf(),
    ensures
        opt_view(r) == match import_named(imports_of(doc@), word@, 0) {
            Some(i) => Some(import_doc(imports_of(doc@)[i])),
            None => None,
        },
{
    let table = import_table(doc);
    let entries = table.entries();
    let ghost all = imports_of(doc@);
    let mut k: usize = 0;
    while k < entries.len()
        invariant
            k <= entries@.len(),
            views(entries@) == all,
            all == imports_of(doc@),
            import_named(all, word@, 0) == import_named(all, word@, k as int),
        decreases entries@.len() - k,
    {
        let entry = &entries[k];
        proof {
            assert(all[k as int] == entry@);
        }
        if str_eq(entry.effective_namespace(), word) {
            return Some(import_markdown(entry));
        }
        k = k + 1;
    }
    None
}

fn import_markdown(entry: &ImportEntry) -> (r: String)
    ensures
        r@ == import_doc(entry@),
{
    let mut statement = concat3("import ", entry.user.as_str(), "/");
    statement.append(entry.lib.as_str());
    statement.append("/");
    statement.append(entry.version.as_str());
    // Render the `as` clause only when the import actually declared one.
    if let Some(alias) = &entry.alias {
        statement.append(" as ");
        statement.append(alias.as_str());
    }
    let mut markdown = concat3("```pine\n", statement.as_str(), "\n```");
    match &entry.source {
        Some(path) => {
            markdown.append("\n\nSource: ");
            markdown.append(path.as_str());
            proof {
                assert(markdown@ =~= import_doc(entry@));
            }
        },
        None => {
            markdown.append(
                "\n\nNo `/// @source` directive set; cross-file IntelliSense unavailable.",
            );
        },
    }
    markdown
}

/// The documentation of a builtin.
pub fn builtin_doc(db: &Builtins, word: &str) -> (r: Option<String>)
    ensures
        opt_view(r) == builtin_doc_of(*db, word@),
{
    if let Some(f) = function(db, word) {
        let head = if f.syntax.as_str().is_empty() {
            f.name.as_str()
        } else {
            f.syntax.as_str()
        };
        let mut s = concat3("```pine\n", head, "\n```");
        append_description(&mut s, f.description.as_str());
        return Some(s);
    }
    if let Some(v) = variable(db, word) {
        let mut s = concat3(
            "```pine\n",
            concat3(v.name.as_str(), ": ", v.ty.as_str()).as_str(),
            "\n```",
        );
        append_description(&mut s, v.description.as_str());
        return Some(s);
    }
    if let Some(c) = constant(db, word) {
        let mut s = concat3(
            "```pine\n",
            concat3(c.name.as_str(), ": ", c.ty.as_str()).as_str(),
            "\n```",
        );
        if let Some(d) = &c.description {
            append_description(&mut s, d.as_str());
        }
        return Some(s);
    }
    None
}

}
