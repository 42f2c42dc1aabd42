use vstd::prelude::*;

use crate::errors::ContextMeshError;
use crate::strutil::{spec_last_segment, last_segment, str_to_string, string_eq_str};
use crate::syntax::{field_child, child_by_field, spec_field_is, SyntaxTree};

verus! {

/// The syntactic categories that produce symbols in Rust source.
pub open spec fn is_definition_kind(k: Seq<char>) -> bool {
    ||| k == "function_item"@
    ||| k == "method_declaration"@
    ||| k == "trait_item"@
    ||| k == "impl_item"@
    ||| k == "struct_item"@
    ||| k == "enum_item"@
    ||| k == "field_declaration"@
    ||| k == "static_item"@
    ||| k == "const_item"@
}

/// Entries of an import table, read as (alias, path) character pairs.
pub open spec fn view_pairs(m: Seq<(String, String)>) -> Seq<(Seq<char>, Seq<char>)> {
    m.map_values(|p: (String, String)| (p.0@, p.1@))
}

/// The view table holds an entry keyed `k`.
pub open spec fn vhas(m: Seq<(Seq<char>, Seq<char>)>, k: Seq<char>) -> bool {
    exists|i: int| 0 <= i < m.len() && (#[trigger] m[i]).0 == k
}

/// The index of the entry keyed `k`.
pub open spec fn vindex(m: Seq<(Seq<char>, Seq<char>)>, k: Seq<char>) -> int {
    choose|i: int| 0 <= i < m.len() && (#[trigger] m[i]).0 == k
}

/// The value under key `k`.
pub open spec fn vvalue(m: Seq<(Seq<char>, Seq<char>)>, k: Seq<char>) -> Seq<char> {
    m[vindex(m, k)].1
}

/// The table with `v` installed under `k`: overwritten in place when the key
/// exists, appended otherwise.
pub open spec fn vupsert(
    m: Seq<(Seq<char>, Seq<char>)>,
    k: Seq<char>,
    v: Seq<char>,
) -> Seq<(Seq<char>, Seq<char>)> {
    if vhas(m, k) {
        m.update(vindex(m, k), (k, v))
    } else {
        m.push((k, v))
    }
}

/// Node `i` is an import the adapter acts on: an aliasing `use` clause
/// (`path as alias`), or a plain `use` declaration whose argument is a bare
/// or scoped identifier.
pub open spec fn is_import_node(tree: SyntaxTree, i: int) -> bool {
    0 <= i < tree.nodes@.len() && (is_alias_import(tree, i) || is_plain_import(tree, i))
}

/// An aliasing clause: `use <path> as <alias>`.
pub open spec fn is_alias_import(tree: SyntaxTree, i: int) -> bool {
    &&& 0 <= i < tree.nodes@.len()
    &&& tree.nodes@[i].kind@ == "use_as_clause"@
    &&& field_child(tree, i, "path"@) is Some
    &&& field_child(tree, i, "alias"@) is Some
}

/// A plain declaration: `use <path>;` with an identifier or scoped path.
pub open spec fn is_plain_import(tree: SyntaxTree, i: int) -> bool {
    &&& 0 <= i < tree.nodes@.len()
    &&& tree.nodes@[i].kind@ == "use_declaration"@
    &&& field_child(tree, i, "argument"@) is Some
    &&& {
        let a = field_child(tree, i, "argument"@)->Some_0;
        tree.nodes@[a].kind@ == "identifier"@ || tree.nodes@[a].kind@ == "scoped_identifier"@
    }
}

/// The alias under which an import is recorded: the alias token's text for
/// an aliasing clause, else the last `::`-separated segment of the path.
pub open spec fn import_key(tree: SyntaxTree, i: int) -> Seq<char> {
    if is_alias_import(tree, i) {
        tree.nodes@[field_child(tree, i, "alias"@)->Some_0].text@
    } else {
        spec_last_segment(tree.nodes@[field_child(tree, i, "argument"@)->Some_0].text@)
    }
}

/// The full path text an import records.
pub open spec fn import_val(tree: SyntaxTree, i: int) -> Seq<char> {
    if is_alias_import(tree, i) {
        tree.nodes@[field_child(tree, i, "path"@)->Some_0].text@
    } else {
        tree.nodes@[field_child(tree, i, "argument"@)->Some_0].text@
    }
}

/// The lookup key a reference-site node contributes: an identifier's text
/// (resolved through the import table to the last segment of the aliased
/// path), the last segment of a scoped identifier, and nothing for any other
/// node kind.
pub open spec fn spec_callable_name(
    tree: SyntaxTree,
    i: int,
    imports: Seq<(Seq<char>, Seq<char>)>,
) -> Seq<char> {
    if tree.nodes@[i].kind@ == "identifier"@ {
        if vhas(imports, tree.nodes@[i].text@) {
            spec_last_segment(vvalue(imports, tree.nodes@[i].text@))
        } else {
            tree.nodes@[i].text@
        }
    } else if tree.nodes@[i].kind@ == "scoped_identifier"@ {
        spec_last_segment(tree.nodes@[i].text@)
    } else {
        Seq::<char>::empty()
    }
}

/// The Rust language policy: which nodes define symbols, how their names are
/// read, how `use` declarations feed the import table, and what a call site
/// contributes as a raw reference name.
pub struct RustIndexer;

impl RustIndexer {
    /// The language this adapter serves.
    pub fn language_name(&self) -> (r: &'static str)
        ensures
            r@ == "rust"@,
    {
        "rust"
    }

    /// The node kinds that produce symbols, one per entry.
    pub fn allowed_definition_kinds(&self) -> (r: Vec<String>)
        ensures
            forall|k: Seq<char>|
                crate::assoc::contains_str(r@, k) == is_definition_kind(k),
    {
        let mut r: Vec<String> = Vec::new();
        r.push(str_to_string("function_item"));
        r.push(str_to_string("method_declaration"));
        r.push(str_to_string("trait_item"));
        r.push(str_to_string("impl_item"));
        r.push(str_to_string("struct_item"));
        r.push(str_to_string("enum_item"));
        r.push(str_to_string("field_declaration"));
        r.push(str_to_string("static_item"));
        r.push(str_to_string("const_item"));
        proof {
            assert forall|k: Seq<char>| crate::assoc::contains_str(r@, k)
                == is_definition_kind(k) by {
                if is_definition_kind(k) {
                    if k == "function_item"@ {
                        assert(r@[0]@ == k);
                    } else if k == "method_declaration"@ {
                        assert(r@[1]@ == k);
                    } else if k == "trait_item"@ {
                        assert(r@[2]@ == k);
                    } else if k == "impl_item"@ {
                        assert(r@[3]@ == k);
                    } else if k == "struct_item"@ {
                        assert(r@[4]@ == k);
                    } else if k == "enum_item"@ {
                        assert(r@[5]@ == k);
                    } else if k == "field_declaration"@ {
                        assert(r@[6]@ == k);
                    } else if k == "static_item"@ {
                        assert(r@[7]@ == k);
                    } else {
                        assert(r@[8]@ == k);
                    }
                }
            }
        }
        r
    }

    /// Whether nodes of kind `k` define symbols.
    pub fn is_definition(&self, k: &String) -> (r: bool)
        ensures
            r == is_definition_kind(k@),
    {
        string_eq_str(k, "function_item") || string_eq_str(k, "method_declaration")
            || string_eq_str(k, "trait_item") || string_eq_str(k, "impl_item") || string_eq_str(
            k,
            "struct_item",
        ) || string_eq_str(k, "enum_item") || string_eq_str(k, "field_declaration")
            || string_eq_str(k, "static_item") || string_eq_str(k, "const_item")
    }

    /// The name to store for the definition at node `i`: the text of its
    /// name child. A definition without one is skipped with an error.
    pub fn build_qualified_name(&self, tree: &SyntaxTree, i: usize) -> (r: Result<
        String,
        ContextMeshError,
    >)
        requires
            tree.wf(),
            i < tree.nodes@.len(),
        ensures
            match r {
                Ok(nm) => field_child(*tree, i as int, "name"@) is Some && nm@
                    == tree.nodes@[field_child(*tree, i as int, "name"@)->Some_0].text@,
                Err(_) => field_child(*tree, i as int, "name"@) is None,
            },
    {
        match child_by_field(tree, i, "name") {
            Some(c) => Ok(tree.nodes[c].text.clone()),
            None => Err(ContextMeshError::DecodeError(str_to_string("item has no name"))),
        }
    }

    /// Feeds one node into the import table: an aliasing `use` clause adds
    /// one (alias, path) entry keyed on the alias token; a plain `use` of an
    /// identifier or scoped path adds one keyed on the path's last segment;
    /// anything else adds nothing.
    pub fn process_import_declaration(
        &self,
        tree: &SyntaxTree,
        i: usize,
        imports: &mut Vec<(String, String)>,
    )
        requires
            tree.wf(),
            i < tree.nodes@.len(),
            crate::assoc::unique_keys(old(imports)@),
        ensures
            crate::assoc::unique_keys(final(imports)@),
            is_import_node(*tree, i as int) ==> view_pairs(final(imports)@) == vupsert(
                view_pairs(old(imports)@),
                import_key(*tree, i as int),
                import_val(*tree, i as int),
            ),
            !is_import_node(*tree, i as int) ==> *final(imports) == *old(imports),
    {
        let is_alias = string_eq_str(&tree.nodes[i].kind, "use_as_clause");
        let is_plain = if is_alias {
            false
        } else {
            string_eq_str(&tree.nodes[i].kind, "use_declaration")
        };
        let (key, path_text): (String, String) = if is_alias {
            let path_idx = match child_by_field(tree, i, "path") {
                Some(c) => c,
                None => {
                    proof {
                        assert(!is_import_node(*tree, i as int)) by {
                            assert("use_as_clause"@.len() == 13) by {
                                reveal_strlit("use_as_clause");
                            }
                            assert("use_declaration"@.len() == 15) by {
                                reveal_strlit("use_declaration");
                            }
                        }
                    }
                    return ;
                },
            };
            let alias_idx = match child_by_field(tree, i, "alias") {
                Some(c) => c,
                None => {
                    proof {
                        assert(!is_import_node(*tree, i as int)) by {
                            assert("use_as_clause"@.len() == 13) by {
                                reveal_strlit("use_as_clause");
                            }
                            assert("use_declaration"@.len() == 15) by {
                                reveal_strlit("use_declaration");
                            }
                        }
                    }
                    return ;
                },
            };
            (tree.nodes[alias_idx].text.clone(), tree.nodes[path_idx].text.clone())
        } else if is_plain {
            let arg_idx = match child_by_field(tree, i, "argument") {
                Some(c) => c,
                None => {
                    proof {
                        assert(!is_import_node(*tree, i as int)) by {
                            assert("use_as_clause"@.len() == 13) by {
                                reveal_strlit("use_as_clause");
                            }
                            assert("use_declaration"@.len() == 15) by {
                                reveal_strlit("use_declaration");
                            }
                        }
                    }
                    return ;
                },
            };
            if !(string_eq_str(&tree.nodes[arg_idx].kind, "identifier") || string_eq_str(
                &tree.nodes[arg_idx].kind,
                "scoped_identifier",
            )) {
                proof {
                    assert(!is_import_node(*tree, i as int)) by {
                        assert("use_as_clause"@.len() == 13) by {
                            reveal_strlit("use_as_clause");
                        }
                        assert("use_declaration"@.len() == 15) by {
                            reveal_strlit("use_declaration");
                        }
                    }
                }
                return ;
            }
            let arg_text = tree.nodes[arg_idx].text.clone();
            (last_segment(&arg_text), arg_text)
        } else {
            proof {
                assert(!is_import_node(*tree, i as int)) by {
                    reveal_strlit("use_as_clause");
                    reveal_strlit("use_declaration");
                }
            }
            return ;
        };
        proof {
            assert("use_as_clause"@.len() == 13) by {
                reveal_strlit("use_as_clause");
            }
            assert("use_declaration"@.len() == 15) by {
                reveal_strlit("use_declaration");
            }
            assert(is_import_node(*tree, i as int));
            assert(key@ == import_key(*tree, i as int) && path_text@ == import_val(
                *tree,
                i as int,
            ));
        }
        let ghost oldm = imports@;
        let n = imports.len();
        let mut j: usize = 0;
        while j < n
            invariant
                n == imports@.len(),
                imports@ == oldm,
                oldm == old(imports)@,
                crate::assoc::unique_keys(oldm),
                tree.wf(),
                i < tree.nodes@.len(),
                is_import_node(*tree, i as int),
                key@ == import_key(*tree, i as int),
                path_text@ == import_val(*tree, i as int),
                j <= n,
                forall|j2: int| 0 <= j2 < j ==> (#[trigger] oldm[j2]).0@ != key@,
            decreases n - j,
        {
            if imports[j].0 == key {
                let _prev = imports.remove(j);
                imports.insert(j, (key, path_text));
                proof {
                    assert(imports@ =~= oldm.update(j as int, imports@[j as int]));
                    assert(vhas(view_pairs(oldm), key@)) by {
                        assert(view_pairs(oldm)[j as int].0 == oldm[j as int].0@);
                    }
                    assert(vindex(view_pairs(oldm), key@) == j as int) by {
                        let x = vindex(view_pairs(oldm), key@);
                        assert(view_pairs(oldm)[j as int].0 == oldm[j as int].0@);
                        assert(0 <= x < oldm.len() && view_pairs(oldm)[x].0 == key@);
                        assert(view_pairs(oldm)[x].0 == oldm[x].0@);
                        if x != j as int {
                            assert(oldm[x].0@ == oldm[j as int].0@);
                            assert(false);
                        }
                    }
                    assert(view_pairs(imports@) =~= vupsert(view_pairs(oldm), key@, path_text@));
                    assert forall|a: int, b: int|
                        0 <= a < b < imports@.len() implies imports@[a].0@ != imports@[b].0@ by {
                        if a != j as int && b != j as int {
                            assert(imports@[a] == oldm[a] && imports@[b] == oldm[b]);
                        } else if a == j as int {
                            assert(imports@[a].0@ == oldm[a].0@ && imports@[b] == oldm[b]);
                        } else {
                            assert(imports@[b].0@ == oldm[b].0@ && imports@[a] == oldm[a]);
                        }
                    }
                }
                return ;
            }
            j = j + 1;
        }
        imports.push((key, path_text));
        proof {
            assert(!vhas(view_pairs(oldm), key@)) by {
                if vhas(view_pairs(oldm), key@) {
                    let x = vindex(view_pairs(oldm), key@);
                    assert(view_pairs(oldm)[x].0 == oldm[x].0@);
                }
            }
            assert(view_pairs(imports@) =~= vupsert(view_pairs(oldm), key@, path_text@));
            assert forall|a: int, b: int|
                0 <= a < b < imports@.len() implies imports@[a].0@ != imports@[b].0@ by {
                if b < imports@.len() - 1 {
                    assert(imports@[a] == oldm[a] && imports@[b] == oldm[b]);
                } else {
                    assert(imports@[a] == oldm[a]);
                    assert(imports@[b].0@ == key@);
                    assert(oldm[a].0@ != key@);
                }
            }
        }
    }

    /// The raw reference name a call-site node contributes, per
    /// `spec_callable_name`; an empty string stands for "nothing".
    pub fn extract_callable_name(
        &self,
        tree: &SyntaxTree,
        i: usize,
        imports: &Vec<(String, String)>,
    ) -> (r: String)
        requires
            tree.wf(),
            i < tree.nodes@.len(),
            crate::assoc::unique_keys(imports@),
        ensures
            r@ == spec_callable_name(*tree, i as int, view_pairs(imports@)),
    {
        if string_eq_str(&tree.nodes[i].kind, "identifier") {
            let text = &tree.nodes[i].text;
            let n = imports.len();
            let mut j: usize = 0;
            while j < n
                invariant
                    n == imports@.len(),
                    j <= n,
                    crate::assoc::unique_keys(imports@),
                    tree.wf(),
                    i < tree.nodes@.len(),
                    tree.nodes@[i as int].kind@ == "identifier"@,
                    text@ == tree.nodes@[i as int].text@,
                    forall|j2: int| 0 <= j2 < j ==> (#[trigger] imports@[j2]).0@ != text@,
                decreases n - j,
            {
                if imports[j].0 == *text {
                    proof {
                        assert(vhas(view_pairs(imports@), text@)) by {
                            assert(view_pairs(imports@)[j as int].0 == imports@[j as int].0@);
                        }
                        let x = vindex(view_pairs(imports@), text@);
                        assert(view_pairs(imports@)[x].0 == imports@[x].0@);
                        if x != j as int {
                            assert(imports@[x].0@ == imports@[j as int].0@);
                            assert(false);
                        }
                        assert(vvalue(view_pairs(imports@), text@) == imports@[j as int].1@);
                    }
                    return last_segment(&imports[j].1);
                }
                j = j + 1;
            }
            proof {
                assert(!vhas(view_pairs(imports@), text@)) by {
                    if vhas(view_pairs(imports@), text@) {
                        let x = vindex(view_pairs(imports@), text@);
                        assert(view_pairs(imports@)[x].0 == imports@[x].0@);
                    }
                }
            }
            text.clone()
        } else if string_eq_str(&tree.nodes[i].kind, "scoped_identifier") {
            last_segment(&tree.nodes[i].text)
        } else {
            proof {
                reveal_strlit("");
                assert(""@ =~= Seq::<char>::empty());
            }
            str_to_string("")
        }
    }

    /// Pushes the module's name when entering a `mod` item with a name.
    pub fn enter_module(&self, tree: &SyntaxTree, i: usize, current_module: &mut Vec<String>)
        requires
            tree.wf(),
            i < tree.nodes@.len(),
        ensures
            (tree.nodes@[i as int].kind@ == "mod_item"@ && field_child(
                *tree,
                i as int,
                "name"@,
            ) is Some) ==> final(current_module)@.len() == old(current_module)@.len() + 1
                && final(current_module)@.last()@ == tree.nodes@[field_child(
                *tree,
                i as int,
                "name"@,
            )->Some_0].text@ && (forall|j: int|
                0 <= j < old(current_module)@.len() ==> #[trigger] final(current_module)@[j]
                    == old(current_module)@[j]),
            !(tree.nodes@[i as int].kind@ == "mod_item"@ && field_child(
                *tree,
                i as int,
                "name"@,
            ) is Some) ==> *final(current_module) == *old(current_module),
    {
        if string_eq_str(&tree.nodes[i].kind, "mod_item") {
            match child_by_field(tree, i, "name") {
                Some(c) => {
                    current_module.push(tree.nodes[c].text.clone());
                },
                None => {},
            }
        }
    }

    /// Pops the innermost module name, if any.
    pub fn exit_module(&self, current_module: &mut Vec<String>)
        ensures
            old(current_module)@.len() > 0 ==> final(current_module)@ == old(
                current_module,
            )@.drop_last(),
            old(current_module)@.len() == 0 ==> *final(current_module) == *old(current_module),
    {
        if current_module.len() > 0 {
            let _top = current_module.pop();
        }
    }
}

} // verus!
