use vstd::prelude::*;

use crate::assoc::distinct_strs;

verus! {

/// The identity of a symbol: the hex SHA-256 of the concatenation of its
/// name, node kind, file path, and the decimal renderings of its line number
/// and byte offsets. The digest has no short arithmetic description, so it
/// is only named here; `Symbol::hash` is the one place that computes it.
pub uninterp spec fn identity_of(
    name: Seq<char>,
    node_kind: Seq<char>,
    file_path: Seq<char>,
    line_number: nat,
    start_byte: nat,
    end_byte: nat,
) -> Seq<char>;

/// One named definition extracted from a source file, with its resolved
/// dependency edges. `dependencies` and `used_by` hold symbol identities,
/// each at most once.
pub struct Symbol {
    /// The short identifier written at the definition site.
    pub name: String,
    /// The syntactic category of the definition (e.g. `function_item`).
    pub node_kind: String,
    /// The source file the definition lives in.
    pub file_path: String,
    /// 1-based line of the name token.
    pub line_number: usize,
    /// Byte offset where the name token starts.
    pub start_byte: usize,
    /// Byte offset where the name token ends.
    pub end_byte: usize,
    /// Identities of the symbols this one refers to.
    pub dependencies: Vec<String>,
    /// Identities of the symbols that refer to this one.
    pub used_by: Vec<String>,
}

impl Symbol {
    /// The identity determined by the six location fields alone.
    pub open spec fn identity(self) -> Seq<char> {
        identity_of(
            self.name@,
            self.node_kind@,
            self.file_path@,
            self.line_number as nat,
            self.start_byte as nat,
            self.end_byte as nat,
        )
    }

    /// Edge lists hold each identity at most once.
    pub open spec fn edges_wf(self) -> bool {
        distinct_strs(self.dependencies@) && distinct_strs(self.used_by@)
    }

    /// Relies on sha2::Sha256 (via the Digest trait) over the six key fields,
    /// with the numbers rendered in decimal: the hex digest is a function of
    /// those fields alone, and a 32-byte digest prints as 64 hex characters.
    #[verifier::external_body]
    pub fn hash(&self) -> (r: String)
        ensures
            r@ == identity_of(
                self.name@,
                self.node_kind@,
                self.file_path@,
                self.line_number as nat,
                self.start_byte as nat,
                self.end_byte as nat,
            ),
            r@.len() == 64,
    {
        let mut hasher: sha2::Sha256 = sha2::Digest::new();
        sha2::Digest::update(&mut hasher, self.name.as_bytes());
        sha2::Digest::update(&mut hasher, self.node_kind.as_bytes());
        sha2::Digest::update(&mut hasher, self.file_path.as_bytes());
        sha2::Digest::update(&mut hasher, self.line_number.to_string().as_bytes());
        sha2::Digest::update(&mut hasher, self.start_byte.to_string().as_bytes());
        sha2::Digest::update(&mut hasher, self.end_byte.to_string().as_bytes());
        format!("{:x}", sha2::Digest::finalize(hasher))
    }
}

/// A definition as the extractor first produces it: location fields as in
/// `Symbol`, but the references still recorded as raw names seen at call
/// sites, not yet translated to identities.
pub struct RawSymbol {
    pub name: String,
    pub node_kind: String,
    pub file_path: String,
    pub line_number: usize,
    pub start_byte: usize,
    pub end_byte: usize,
    /// Raw reference names, in the order the reference walk met them.
    pub dep_names: Vec<String>,
}

impl RawSymbol {
    /// The identity the finished symbol will carry.
    pub open spec fn identity(self) -> Seq<char> {
        identity_of(
            self.name@,
            self.node_kind@,
            self.file_path@,
            self.line_number as nat,
            self.start_byte as nat,
            self.end_byte as nat,
        )
    }

    /// The finished symbol with copies of these location fields and no edges
    /// yet. Its identity equals this raw symbol's.
    pub fn core_symbol(&self) -> (r: Symbol)
        ensures
            r.name == self.name,
            r.node_kind == self.node_kind,
            r.file_path == self.file_path,
            r.line_number == self.line_number,
            r.start_byte == self.start_byte,
            r.end_byte == self.end_byte,
            r.dependencies@.len() == 0,
            r.used_by@.len() == 0,
            r.identity() == self.identity(),
    {
        Symbol {
            name: self.name.clone(),
            node_kind: self.node_kind.clone(),
            file_path: self.file_path.clone(),
            line_number: self.line_number,
            start_byte: self.start_byte,
            end_byte: self.end_byte,
            dependencies: Vec::new(),
            used_by: Vec::new(),
        }
    }
}

} // verus!
