use vstd::prelude::*;

use crate::assoc::contains_str;
use crate::errors::ContextMeshError;
use crate::rust_indexer::is_definition_kind;
use crate::strutil::{str_to_string, string_eq_str};

verus! {

/// The broad category a syntactic kind falls in.
#[derive(PartialEq, Eq, Structural, Clone, Copy, Debug)]
pub enum SymbolType {
    Function,
    Struct,
    Enum,
    Import,
    Variable,
    Field,
}

/// Per-language table from node kinds to symbol categories.
pub struct LanguageConfig {
    pub kind_to_symbol: Vec<(String, SymbolType)>,
}

impl LanguageConfig {
    /// The Rust table: which node kinds map to which categories.
    pub fn rust_config() -> (r: LanguageConfig)
        ensures
            r.kind_to_symbol@.len() == 7,
            r.kind_to_symbol@[0].0@ == "function_item"@ && r.kind_to_symbol@[0].1
                == SymbolType::Function,
            r.kind_to_symbol@[1].0@ == "struct_item"@ && r.kind_to_symbol@[1].1
                == SymbolType::Struct,
            r.kind_to_symbol@[2].0@ == "enum_item"@ && r.kind_to_symbol@[2].1 == SymbolType::Enum,
            r.kind_to_symbol@[3].0@ == "use_declaration"@ && r.kind_to_symbol@[3].1
                == SymbolType::Import,
            r.kind_to_symbol@[4].0@ == "let_declaration"@ && r.kind_to_symbol@[4].1
                == SymbolType::Variable,
            r.kind_to_symbol@[5].0@ == "field_declaration"@ && r.kind_to_symbol@[5].1
                == SymbolType::Field,
            r.kind_to_symbol@[6].0@ == "enum_variant"@ && r.kind_to_symbol@[6].1
                == SymbolType::Field,
    {
        let mut kind_to_symbol: Vec<(String, SymbolType)> = Vec::new();
        kind_to_symbol.push((str_to_string("function_item"), SymbolType::Function));
        kind_to_symbol.push((str_to_string("struct_item"), SymbolType::Struct));
        kind_to_symbol.push((str_to_string("enum_item"), SymbolType::Enum));
        kind_to_symbol.push((str_to_string("use_declaration"), SymbolType::Import));
        kind_to_symbol.push((str_to_string("let_declaration"), SymbolType::Variable));
        kind_to_symbol.push((str_to_string("field_declaration"), SymbolType::Field));
        kind_to_symbol.push((str_to_string("enum_variant"), SymbolType::Field));
        LanguageConfig { kind_to_symbol }
    }
}

/// The known languages and, for each, the node kinds that define symbols.
pub fn language_kinds_map() -> (r: Vec<(String, Vec<String>)>)
    ensures
        r@.len() == 1,
        r@[0].0@ == "rust"@,
        forall|k: Seq<char>| contains_str(r@[0].1@, k) == is_definition_kind(k),
{
    let adapter = crate::rust_indexer::RustIndexer;
    let kinds = adapter.allowed_definition_kinds();
    let mut r: Vec<(String, Vec<String>)> = Vec::new();
    r.push((str_to_string("rust"), kinds));
    r
}

/// The file extensions the given language tag covers; an unknown tag is an
/// `UnsupportedLanguage` error, exactly when the tag is not `rust`.
pub fn supported_extensions(language: &String) -> (r: Result<Vec<String>, ContextMeshError>)
    ensures
        language@ == "rust"@ ==> (r matches Ok(v) && v@.len() == 1 && v@[0]@ == "rs"@),
        language@ != "rust"@ ==> r is Err,
{
    if string_eq_str(language, "rust") {
        let mut v: Vec<String> = Vec::new();
        v.push(str_to_string("rs"));
        Ok(v)
    } else {
        Err(ContextMeshError::UnsupportedLanguage(language.clone()))
    }
}

} // verus!
