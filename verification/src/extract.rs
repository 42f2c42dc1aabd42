use vstd::prelude::*;

use crate::assoc::{contains_str, push_if_absent};
use crate::rust_indexer::{
    is_definition_kind, is_import_node, import_key, import_val, spec_callable_name, view_pairs,
    vupsert, RustIndexer,
};
use crate::symbol::RawSymbol;
use crate::syntax::{child_by_field, field_child, SyntaxTree};
use vstd::string::StrSliceExecFns;

verus! {

broadcast use vstd::string::group_string_axioms;

// Pass 1: walk the arena in order, collect one raw symbol per definition
// node that carries a name, and feed every `use` declaration into the
// import table.

/// Node `i` produces a symbol: it is of a defining kind, carries a name
/// child, and the name's row leaves space for 1-based numbering.
pub open spec fn defines_symbol(tree: SyntaxTree, i: int) -> bool {
    &&& 0 <= i < tree.nodes@.len()
    &&& is_definition_kind(tree.nodes@[i].kind@)
    &&& field_child(tree, i, "name"@) is Some
    &&& tree.nodes@[field_child(tree, i, "name"@)->Some_0].start_row < usize::MAX
}

/// The defining nodes among the first `n`, in arena order.
pub open spec fn def_nodes_upto(tree: SyntaxTree, n: int) -> Seq<int>
    decreases n,
{
    if n <= 0 {
        Seq::<int>::empty()
    } else if defines_symbol(tree, n - 1) {
        def_nodes_upto(tree, n - 1).push(n - 1)
    } else {
        def_nodes_upto(tree, n - 1)
    }
}

/// The raw symbol `raw` describes the definition at node `i`: its name is
/// the name token's text, its kind the defining node's kind, and its
/// location the name token's.
pub open spec fn raw_matches_def(
    tree: SyntaxTree,
    path: Seq<char>,
    i: int,
    raw: RawSymbol,
) -> bool {
    let c = field_child(tree, i, "name"@)->Some_0;
    &&& raw.name@ == tree.nodes@[c].text@
    &&& raw.node_kind@ == tree.nodes@[i].kind@
    &&& raw.file_path@ == path
    &&& raw.line_number == tree.nodes@[c].start_row + 1
    &&& raw.start_byte == tree.nodes@[c].start_byte
    &&& raw.end_byte == tree.nodes@[c].end_byte
}

/// The import table after the first `n` nodes.
pub open spec fn imports_upto(tree: SyntaxTree, n: int) -> Seq<(Seq<char>, Seq<char>)>
    decreases n,
{
    if n <= 0 {
        Seq::<(Seq<char>, Seq<char>)>::empty()
    } else {
        let m = imports_upto(tree, n - 1);
        if is_import_node(tree, n - 1) {
            vupsert(m, import_key(tree, n - 1), import_val(tree, n - 1))
        } else {
            m
        }
    }
}

/// Collects the raw symbols (without references yet) and the import table of
/// one file, walking every node once. The module stack is maintained through
/// the adapter's scope hooks, ready for qualified naming, though stored
/// names are the short name tokens.
pub fn collect_definitions_and_imports(
    adapter: &RustIndexer,
    tree: &SyntaxTree,
    file_path: &String,
) -> (r: (Vec<RawSymbol>, Vec<(String, String)>))
    requires
        tree.wf(),
    ensures
        r.0@.len() == def_nodes_upto(*tree, tree.nodes@.len() as int).len(),
        forall|j: int|
            0 <= j < r.0@.len() ==> raw_matches_def(
                *tree,
                file_path@,
                def_nodes_upto(*tree, tree.nodes@.len() as int)[j],
                #[trigger] r.0@[j],
            ) && r.0@[j].dep_names@.len() == 0,
        view_pairs(r.1@) == imports_upto(*tree, tree.nodes@.len() as int),
        crate::assoc::unique_keys(r.1@),
{
    let n = tree.len();
    let mut syms: Vec<RawSymbol> = Vec::new();
    let mut imports: Vec<(String, String)> = Vec::new();
    let mut module_stack: Vec<String> = Vec::new();
    let mut scope_ends: Vec<usize> = Vec::new();
    let mut i: usize = 0;
    while i < n
        invariant
            tree.wf(),
            n == tree.nodes@.len(),
            i <= n,
            syms@.len() == def_nodes_upto(*tree, i as int).len(),
            forall|j: int|
                0 <= j < syms@.len() ==> raw_matches_def(
                    *tree,
                    file_path@,
                    def_nodes_upto(*tree, i as int)[j],
                    #[trigger] syms@[j],
                ) && syms@[j].dep_names@.len() == 0,
            view_pairs(imports@) == imports_upto(*tree, i as int),
            crate::assoc::unique_keys(imports@),
            scope_ends@.len() == module_stack@.len(),
        decreases n - i,
    {
        // Leave module scopes whose subtrees ended before this node.
        let mut guard: usize = scope_ends.len();
        while guard > 0
            invariant
                scope_ends@.len() == module_stack@.len(),
                guard <= scope_ends@.len(),
            decreases guard,
        {
            let top = scope_ends.len() - 1;
            if scope_ends[top] <= i {
                let _end = scope_ends.pop();
                adapter.exit_module(&mut module_stack);
            } else {
                break ;
            }
            guard = guard - 1;
        }
        // Enter a module scope where one starts here.
        let pre_len = module_stack.len();
        adapter.enter_module(tree, i, &mut module_stack);
        if module_stack.len() > pre_len {
            scope_ends.push(tree.nodes[i].subtree_end);
        }
        adapter.process_import_declaration(tree, i, &mut imports);
        if adapter.is_definition(&tree.nodes[i].kind) {
            match child_by_field(tree, i, "name") {
                Some(c) => {
                    if tree.nodes[c].start_row < usize::MAX {
                        let name = match adapter.build_qualified_name(tree, i) {
                            Ok(nm) => nm,
                            Err(_) => {
                                proof {
                                    assert(false);
                                }
                                crate::strutil::str_to_string("")
                            },
                        };
                        let raw = RawSymbol {
                            name,
                            node_kind: tree.nodes[i].kind.clone(),
                            file_path: file_path.clone(),
                            line_number: tree.nodes[c].start_row + 1,
                            start_byte: tree.nodes[c].start_byte,
                            end_byte: tree.nodes[c].end_byte,
                            dep_names: Vec::new(),
                        };
                        syms.push(raw);
                        proof {
                            assert(defines_symbol(*tree, i as int));
                            assert(def_nodes_upto(*tree, i + 1) == def_nodes_upto(
                                *tree,
                                i as int,
                            ).push(i as int));
                        }
                    } else {
                        proof {
                            assert(!defines_symbol(*tree, i as int));
                            assert(def_nodes_upto(*tree, i + 1) == def_nodes_upto(*tree, i as int));
                        }
                    }
                },
                None => {
                    proof {
                        assert(!defines_symbol(*tree, i as int));
                        assert(def_nodes_upto(*tree, i + 1) == def_nodes_upto(*tree, i as int));
                    }
                },
            }
        } else {
            proof {
                assert(!defines_symbol(*tree, i as int));
                assert(def_nodes_upto(*tree, i + 1) == def_nodes_upto(*tree, i as int));
            }
        }
        i = i + 1;
    }
    (syms, imports)
}

// Pass 2: walk the arena again with a stack of the enclosing symbols, and
// record what each call site references as a raw name on the innermost
// enclosing symbol.

/// What the matcher reads of a collected symbol: kind, 1-based line, path.
pub open spec fn core_of(raw: RawSymbol) -> (Seq<char>, int, Seq<char>) {
    (raw.node_kind@, raw.line_number as int, raw.file_path@)
}

/// The cores of all collected symbols.
pub open spec fn cores(s: Seq<RawSymbol>) -> Seq<(Seq<char>, int, Seq<char>)> {
    s.map_values(|r: RawSymbol| core_of(r))
}

/// The row of node `i`'s name token.
pub open spec fn name_row(tree: SyntaxTree, i: int) -> int {
    tree.nodes@[field_child(tree, i, "name"@)->Some_0].start_row as int
}

/// Collected symbol `j` matches scope node `i`: same kind, same file, and
/// the symbol's stored line is the 1-based line of `i`'s name token.
pub open spec fn scope_match(
    tree: SyntaxTree,
    cs: Seq<(Seq<char>, int, Seq<char>)>,
    path: Seq<char>,
    i: int,
    j: int,
) -> bool {
    &&& 0 <= j < cs.len()
    &&& cs[j].0 == tree.nodes@[i].kind@
    &&& cs[j].1 == name_row(tree, i) + 1
    &&& cs[j].2 == path
}

/// The first collected symbol from position `j` on that matches node `i`.
pub open spec fn match_from(
    tree: SyntaxTree,
    cs: Seq<(Seq<char>, int, Seq<char>)>,
    path: Seq<char>,
    i: int,
    j: int,
) -> Option<int>
    decreases cs.len() - j,
{
    if 0 <= j < cs.len() {
        if scope_match(tree, cs, path, i, j) {
            Some(j)
        } else {
            match_from(tree, cs, path, i, j + 1)
        }
    } else {
        None
    }
}

/// Scopes whose subtree ended at or before node `i` are closed.
pub open spec fn pop_done(st: Seq<(int, int)>, i: int) -> Seq<(int, int)>
    decreases st.len(),
{
    if st.len() > 0 && st.last().1 <= i {
        pop_done(st.drop_last(), i)
    } else {
        st
    }
}

/// Appends `x` unless present: raw reference names form a set per symbol.
pub open spec fn set_push(s: Seq<Seq<char>>, x: Seq<char>) -> Seq<Seq<char>> {
    if s.contains(x) {
        s
    } else {
        s.push(x)
    }
}

/// One pass-2 step at node `i`: close finished scopes; a node whose name
/// token locates a collected symbol opens that symbol's scope; inside a
/// scope, a call expression contributes its callee's lookup key (when not
/// empty) and a method call its method token's text, to the innermost
/// symbol's raw names.
pub open spec fn pass2_step(
    tree: SyntaxTree,
    cs: Seq<(Seq<char>, int, Seq<char>)>,
    path: Seq<char>,
    imports: Seq<(Seq<char>, Seq<char>)>,
    st: Seq<(int, int)>,
    deps: Seq<Seq<Seq<char>>>,
    i: int,
) -> (Seq<(int, int)>, Seq<Seq<Seq<char>>>) {
    let st1 = pop_done(st, i);
    if field_child(tree, i, "name"@) is Some && match_from(tree, cs, path, i, 0) is Some {
        (st1.push((match_from(tree, cs, path, i, 0)->Some_0, tree.nodes@[i].subtree_end as int)),
        deps)
    } else if tree.nodes@[i].kind@ == "call_expression"@ && field_child(
        tree,
        i,
        "function"@,
    ) is Some && st1.len() > 0 {
        let nm = spec_callable_name(tree, field_child(tree, i, "function"@)->Some_0, imports);
        if nm.len() > 0 {
            let t = st1.last().0;
            (st1, deps.update(t, set_push(deps[t], nm)))
        } else {
            (st1, deps)
        }
    } else if tree.nodes@[i].kind@ == "method_call_expression"@ && field_child(
        tree,
        i,
        "method"@,
    ) is Some && st1.len() > 0 {
        let nm = tree.nodes@[field_child(tree, i, "method"@)->Some_0].text@;
        let t = st1.last().0;
        (st1, deps.update(t, set_push(deps[t], nm)))
    } else {
        (st1, deps)
    }
}

/// The pass-2 state after the first `n` nodes: the open scopes and the raw
/// names collected per symbol.
pub open spec fn pass2_upto(
    tree: SyntaxTree,
    cs: Seq<(Seq<char>, int, Seq<char>)>,
    path: Seq<char>,
    imports: Seq<(Seq<char>, Seq<char>)>,
    n: int,
) -> (Seq<(int, int)>, Seq<Seq<Seq<char>>>)
    decreases n,
{
    if n <= 0 {
        (Seq::<(int, int)>::empty(), Seq::new(cs.len(), |j: int| Seq::<Seq<char>>::empty()))
    } else {
        let s = pass2_upto(tree, cs, path, imports, n - 1);
        pass2_step(tree, cs, path, imports, s.0, s.1, n - 1)
    }
}

/// Closing finished scopes keeps a prefix of the stack.
proof fn lemma_pop_done_prefix(st: Seq<(int, int)>, i: int)
    ensures
        pop_done(st, i).len() <= st.len(),
        forall|f: int| 0 <= f < pop_done(st, i).len() ==> #[trigger] pop_done(st, i)[f] == st[f],
    decreases st.len(),
{
    if st.len() > 0 && st.last().1 <= i {
        lemma_pop_done_prefix(st.drop_last(), i);
    }
}

/// A found scope match is an index into the collected symbols.
proof fn lemma_match_from_bounds(
    tree: SyntaxTree,
    cs: Seq<(Seq<char>, int, Seq<char>)>,
    path: Seq<char>,
    i: int,
    j: int,
)
    ensures
        match_from(tree, cs, path, i, j) matches Some(x) ==> 0 <= x < cs.len(),
    decreases cs.len() - j,
{
    if 0 <= j < cs.len() && !scope_match(tree, cs, path, i, j) {
        lemma_match_from_bounds(tree, cs, path, i, j + 1);
    }
}

/// The pass-2 fold keeps one name list per collected symbol, and every open
/// scope points at a collected symbol.
pub proof fn lemma_pass2_len(
    tree: SyntaxTree,
    cs: Seq<(Seq<char>, int, Seq<char>)>,
    path: Seq<char>,
    imports: Seq<(Seq<char>, Seq<char>)>,
    n: int,
)
    ensures
        pass2_upto(tree, cs, path, imports, n).1.len() == cs.len(),
        forall|f: int|
            0 <= f < pass2_upto(tree, cs, path, imports, n).0.len() ==> 0 <= (#[trigger] pass2_upto(
                tree,
                cs,
                path,
                imports,
                n,
            ).0[f]).0 < cs.len(),
    decreases n,
{
    if n > 0 {
        lemma_pass2_len(tree, cs, path, imports, n - 1);
        let st = pass2_upto(tree, cs, path, imports, n - 1);
        let post = pass2_upto(tree, cs, path, imports, n);
        assert(post == pass2_step(tree, cs, path, imports, st.0, st.1, n - 1));
        lemma_pop_done_prefix(st.0, n - 1);
        let st1 = pop_done(st.0, n - 1);
        assert forall|f: int| 0 <= f < st1.len() implies 0 <= (#[trigger] st1[f]).0
            < cs.len() by {
            assert(st1[f] == st.0[f]);
        }
        lemma_match_from_bounds(tree, cs, path, n - 1, 0);
        if field_child(tree, n - 1, "name"@) is Some && match_from(
            tree,
            cs,
            path,
            n - 1,
            0,
        ) is Some {
            assert forall|f: int| 0 <= f < post.0.len() implies 0 <= (#[trigger] post.0[f]).0
                < cs.len() by {
                if f < post.0.len() - 1 {
                    assert(post.0[f] == st1[f]);
                }
            }
        } else {
            if st1.len() > 0 {
                assert(0 <= st1.last().0 < cs.len());
            }
        }
    } else {
        assert(pass2_upto(tree, cs, path, imports, n).1 == Seq::new(
            cs.len(),
            |j: int| Seq::<Seq<char>>::empty(),
        ));
    }
}

/// The views of a symbol's raw reference names.
pub open spec fn dep_views(raw: RawSymbol) -> Seq<Seq<char>> {
    raw.dep_names@.map_values(|s: String| s@)
}

/// Tuples of the exec scope stack, as the spec reads them.
pub open spec fn stack_view(st: Seq<(usize, usize)>) -> Seq<(int, int)> {
    st.map_values(|p: (usize, usize)| (p.0 as int, p.1 as int))
}

/// No collected symbol can match a node whose name token sits on the last
/// representable row: stored lines are 1-based and fit in the machine word.
proof fn lemma_no_match_row_overflow(
    tree: SyntaxTree,
    cs: Seq<(Seq<char>, int, Seq<char>)>,
    path: Seq<char>,
    i: int,
    j: int,
)
    requires
        forall|x: int| 0 <= x < cs.len() ==> (#[trigger] cs[x]).1 <= usize::MAX as int,
        name_row(tree, i) + 1 > usize::MAX as int,
    ensures
        match_from(tree, cs, path, i, j) is None,
    decreases cs.len() - j,
{
    if 0 <= j < cs.len() {
        assert(!scope_match(tree, cs, path, i, j));
        lemma_no_match_row_overflow(tree, cs, path, i, j + 1);
    }
}

/// The first collected symbol whose kind, file and 1-based line match the
/// scope node `i` with name-token row `row`.
fn find_scope_match(
    tree: &SyntaxTree,
    syms: &Vec<RawSymbol>,
    file_path: &String,
    i: usize,
    row: usize,
) -> (r: Option<usize>)
    requires
        tree.wf(),
        i < tree.nodes@.len(),
        field_child(*tree, i as int, "name"@) is Some,
        name_row(*tree, i as int) == row as int,
        row < usize::MAX,
    ensures
        match r {
            Some(j) => match_from(*tree, cores(syms@), file_path@, i as int, 0) == Some(j as int)
                && j < syms@.len(),
            None => match_from(*tree, cores(syms@), file_path@, i as int, 0) is None,
        },
{
    let ghost cs = cores(syms@);
    let n = syms.len();
    let mut j: usize = 0;
    while j < n
        invariant
            tree.wf(),
            i < tree.nodes@.len(),
            field_child(*tree, i as int, "name"@) is Some,
            name_row(*tree, i as int) == row as int,
            row < usize::MAX,
            cs == cores(syms@),
            n == syms@.len(),
            j <= n,
            match_from(*tree, cs, file_path@, i as int, 0) == match_from(
                *tree,
                cs,
                file_path@,
                i as int,
                j as int,
            ),
        decreases n - j,
    {
        proof {
            assert(cs[j as int] == core_of(syms@[j as int]));
        }
        if syms[j].node_kind == tree.nodes[i].kind && syms[j].line_number == row + 1
            && syms[j].file_path == *file_path {
            proof {
                assert(scope_match(*tree, cs, file_path@, i as int, j as int));
            }
            return Some(j);
        }
        proof {
            assert(!scope_match(*tree, cs, file_path@, i as int, j as int));
        }
        j = j + 1;
    }
    None
}

/// Records raw name `nm` on symbol `t`, keeping the name set free of
/// duplicates and every other symbol untouched.
fn add_dep_name(syms: &mut Vec<RawSymbol>, t: usize, nm: String)
    requires
        t < old(syms)@.len(),
    ensures
        final(syms)@.len() == old(syms)@.len(),
        forall|j: int| 0 <= j < old(syms)@.len() && j != t ==> #[trigger] final(syms)@[j] == old(
            syms,
        )@[j],
        ({
            let prev = old(syms)@[t as int];
            let cur = final(syms)@[t as int];
            &&& cur.name == prev.name
            &&& cur.node_kind == prev.node_kind
            &&& cur.file_path == prev.file_path
            &&& cur.line_number == prev.line_number
            &&& cur.start_byte == prev.start_byte
            &&& cur.end_byte == prev.end_byte
            &&& dep_views(cur) == set_push(dep_views(prev), nm@)
        }),
{
    let ghost oldv = syms@;
    let ghost nmv = nm@;
    let mut entry = syms.remove(t);
    let ghost predeps = entry.dep_names@;
    let had = crate::assoc::vec_contains_string(&entry.dep_names, &nm);
    push_if_absent(&mut entry.dep_names, nm);
    proof {
        assert(dep_views(oldv[t as int]).contains(nmv) == contains_str(predeps, nmv)) by {
            if dep_views(oldv[t as int]).contains(nmv) {
                let x = choose|x: int|
                    0 <= x < dep_views(oldv[t as int]).len() && dep_views(oldv[t as int])[x]
                        == nmv;
                assert(predeps[x]@ == nmv);
            }
            if contains_str(predeps, nmv) {
                let x = choose|x: int| 0 <= x < predeps.len() && predeps[x]@ == nmv;
                assert(dep_views(oldv[t as int])[x] == nmv);
            }
        }
        if had {
            assert(entry.dep_names@ == predeps);
            assert(entry.dep_names@.map_values(|s: String| s@) =~= set_push(
                dep_views(oldv[t as int]),
                nmv,
            ));
        } else {
            assert(entry.dep_names@.map_values(|s: String| s@) =~= set_push(
                dep_views(oldv[t as int]),
                nmv,
            ));
        }
    }
    syms.insert(t, entry);
    proof {
        assert(syms@ =~= oldv.update(t as int, syms@[t as int]));
    }
}

/// Walks the tree and records, on each collected symbol, the raw names its
/// body references, exactly as `pass2_upto` folds them up.
#[verifier::rlimit(100)]
pub fn gather_references(
    adapter: &RustIndexer,
    tree: &SyntaxTree,
    file_path: &String,
    syms: &mut Vec<RawSymbol>,
    imports: &Vec<(String, String)>,
)
    requires
        tree.wf(),
        crate::assoc::unique_keys(imports@),
        forall|j: int| 0 <= j < old(syms)@.len() ==> (#[trigger] old(syms)@[j]).dep_names@.len() == 0,
    ensures
        final(syms)@.len() == old(syms)@.len(),
        forall|j: int|
            0 <= j < final(syms)@.len() ==> {
                let prev = old(syms)@[j];
                let cur = #[trigger] final(syms)@[j];
                &&& cur.name == prev.name
                &&& cur.node_kind == prev.node_kind
                &&& cur.file_path == prev.file_path
                &&& cur.line_number == prev.line_number
                &&& cur.start_byte == prev.start_byte
                &&& cur.end_byte == prev.end_byte
            },
        forall|j: int|
            0 <= j < final(syms)@.len() ==> dep_views(#[trigger] final(syms)@[j]) == pass2_upto(
                *tree,
                cores(old(syms)@),
                file_path@,
                view_pairs(imports@),
                tree.nodes@.len() as int,
            ).1[j],
{
    let ghost cs = cores(old(syms)@);
    let ghost iv = view_pairs(imports@);
    let n = tree.len();
    let mut stack: Vec<(usize, usize)> = Vec::new();
    let mut i: usize = 0;
    proof {
        assert(stack_view(stack@) =~= pass2_upto(*tree, cs, file_path@, iv, 0).0);
        assert forall|j: int| 0 <= j < syms@.len() implies dep_views(#[trigger] syms@[j])
            =~= pass2_upto(*tree, cs, file_path@, iv, 0).1[j] by {
            assert(syms@[j].dep_names@.len() == 0);
            assert(dep_views(syms@[j]) =~= Seq::<Seq<char>>::empty());
        }
    }
    while i < n
        invariant
            tree.wf(),
            n == tree.nodes@.len(),
            i <= n,
            crate::assoc::unique_keys(imports@),
            iv == view_pairs(imports@),
            cs == cores(old(syms)@),
            syms@.len() == old(syms)@.len(),
            cs.len() == syms@.len(),
            forall|x: int| 0 <= x < cs.len() ==> (#[trigger] cs[x]).1 <= usize::MAX as int,
            forall|j: int|
                0 <= j < syms@.len() ==> {
                    let prev = old(syms)@[j];
                    let cur = #[trigger] syms@[j];
                    &&& cur.name == prev.name
                    &&& cur.node_kind == prev.node_kind
                    &&& cur.file_path == prev.file_path
                    &&& cur.line_number == prev.line_number
                    &&& cur.start_byte == prev.start_byte
                    &&& cur.end_byte == prev.end_byte
                },
            stack_view(stack@) == pass2_upto(*tree, cs, file_path@, iv, i as int).0,
            forall|f: int| 0 <= f < stack@.len() ==> (#[trigger] stack@[f]).0 < syms@.len(),
            forall|j: int|
                0 <= j < syms@.len() ==> dep_views(#[trigger] syms@[j]) == pass2_upto(
                    *tree,
                    cs,
                    file_path@,
                    iv,
                    i as int,
                ).1[j],
        decreases n - i,
    {
        let ghost pre_state = pass2_upto(*tree, cs, file_path@, iv, i as int);
        let ghost syms_pre = syms@;
        proof {
            lemma_pass2_len(*tree, cs, file_path@, iv, i as int);
            lemma_pass2_len(*tree, cs, file_path@, iv, i + 1);
        }
        // Close the scopes whose subtrees have ended.
        let mut done = false;
        while !done
            invariant
                forall|f: int| 0 <= f < stack@.len() ==> (#[trigger] stack@[f]).0 < syms@.len(),
                pop_done(stack_view(stack@), i as int) == pop_done(pre_state.0, i as int),
                done ==> stack@.len() == 0 || stack@.last().1 > i,
            decreases stack@.len() + (if done { 0int } else { 1 }),
        {
            if stack.len() == 0 {
                done = true;
            } else {
                let top = stack.len() - 1;
                if stack[top].1 <= i {
                    let ghost before = stack_view(stack@);
                    let _popped = stack.pop();
                    proof {
                        assert(before.last().1 <= i as int);
                        assert(stack_view(stack@) =~= before.drop_last());
                        assert(pop_done(before, i as int) == pop_done(
                            before.drop_last(),
                            i as int,
                        ));
                    }
                } else {
                    done = true;
                }
            }
        }
        let ghost st1 = pop_done(pre_state.0, i as int);
        proof {
            let cur_view = stack_view(stack@);
            if stack@.len() == 0 {
                assert(pop_done(cur_view, i as int) == cur_view);
            } else {
                assert(cur_view.last().1 > i as int) by {
                    assert(stack@.last().1 > i);
                    assert(cur_view.last() == (stack@.last().0 as int, stack@.last().1 as int));
                }
                assert(pop_done(cur_view, i as int) == cur_view);
            }
            assert(cur_view == st1);
        }
        // A node whose name token locates a collected symbol opens a scope.
        let mut opened = false;
        match child_by_field(tree, i, "name") {
            Some(c) => {
                let row = tree.nodes[c].start_row;
                if row < usize::MAX {
                    match find_scope_match(tree, syms, file_path, i, row) {
                        Some(j) => {
                            stack.push((j, tree.nodes[i].subtree_end));
                            opened = true;
                            proof {
                                assert(cores(syms@) =~= cs) by {
                                    assert forall|x: int| 0 <= x < cs.len() implies cores(
                                        syms@,
                                    )[x] == cs[x] by {
                                        assert(core_of(syms@[x]) == core_of(old(syms)@[x]));
                                    }
                                }
                                assert(stack_view(stack@) =~= st1.push(
                                    (j as int, tree.nodes@[i as int].subtree_end as int),
                                ));
                                assert(pass2_upto(*tree, cs, file_path@, iv, i + 1) == pass2_step(
                                    *tree,
                                    cs,
                                    file_path@,
                                    iv,
                                    pre_state.0,
                                    pre_state.1,
                                    i as int,
                                ));
                            }
                        },
                        None => {
                            proof {
                                assert(cores(syms@) =~= cs) by {
                                    assert forall|x: int| 0 <= x < cs.len() implies cores(
                                        syms@,
                                    )[x] == cs[x] by {
                                        assert(core_of(syms@[x]) == core_of(old(syms)@[x]));
                                    }
                                }
                            }
                        },
                    }
                } else {
                    proof {
                        assert(name_row(*tree, i as int) + 1 > usize::MAX as int);
                        lemma_no_match_row_overflow(*tree, cs, file_path@, i as int, 0);
                    }
                }
            },
            None => {},
        }
        if !opened {
            // Record what a call site references on the innermost symbol.
            if stack.len() > 0 {
                let is_call = crate::strutil::string_eq_str(&tree.nodes[i].kind, "call_expression");
                let is_method = if is_call {
                    false
                } else {
                    crate::strutil::string_eq_str(&tree.nodes[i].kind, "method_call_expression")
                };
                if is_call {
                    match child_by_field(tree, i, "function") {
                        Some(f) => {
                            let nm = adapter.extract_callable_name(tree, f, imports);
                            if nm.as_str().unicode_len() > 0 {
                                let t = stack[stack.len() - 1].0;
                                add_dep_name(syms, t, nm);
                                proof {
                                    lemma_pass2_len(*tree, cs, file_path@, iv, i as int);
                                    lemma_pass2_len(*tree, cs, file_path@, iv, i + 1);
                                    let post = pass2_upto(*tree, cs, file_path@, iv, i + 1);
                                    assert(post == pass2_step(
                                        *tree,
                                        cs,
                                        file_path@,
                                        iv,
                                        pre_state.0,
                                        pre_state.1,
                                        i as int,
                                    ));
                                    assert(stack_view(stack@) == st1);
                                    assert(st1.len() == stack@.len());
                                    assert(st1.last() == (stack@.last().0 as int,
                                    stack@.last().1 as int));
                                    assert(t as int == st1.last().0);
                                    assert(0 <= t < cs.len());
                                    assert(nm@ == spec_callable_name(
                                        *tree,
                                        field_child(*tree, i as int, "function"@)->Some_0,
                                        iv,
                                    ));
                                    assert(post.1 == pre_state.1.update(
                                        t as int,
                                        set_push(pre_state.1[t as int], nm@),
                                    ));
                                    assert(post.0 == st1);
                                    assert forall|j: int|
                                        0 <= j < syms@.len() implies dep_views(
                                        #[trigger] syms@[j],
                                    ) == post.1[j] by {
                                        assert(dep_views(syms_pre[j]) == pre_state.1[j]);
                                        if j == t as int {
                                            assert(dep_views(syms@[j]) == set_push(
                                                dep_views(syms_pre[j]),
                                                nm@,
                                            ));
                                        } else {
                                            assert(syms@[j] == syms_pre[j]);
                                        }
                                    }
                                }
                            }
                        },
                        None => {},
                    }
                } else if is_method {
                    match child_by_field(tree, i, "method") {
                        Some(m) => {
                            let nm = tree.nodes[m].text.clone();
                            let t = stack[stack.len() - 1].0;
                            add_dep_name(syms, t, nm);
                            proof {
                                lemma_pass2_len(*tree, cs, file_path@, iv, i as int);
                                lemma_pass2_len(*tree, cs, file_path@, iv, i + 1);
                                reveal_strlit("call_expression");
                                reveal_strlit("method_call_expression");
                                let post = pass2_upto(*tree, cs, file_path@, iv, i + 1);
                                assert(post == pass2_step(
                                    *tree,
                                    cs,
                                    file_path@,
                                    iv,
                                    pre_state.0,
                                    pre_state.1,
                                    i as int,
                                ));
                                assert(stack_view(stack@) == st1);
                                assert(st1.len() == stack@.len());
                                assert(st1.last() == (stack@.last().0 as int,
                                stack@.last().1 as int));
                                assert(t as int == st1.last().0);
                                assert(0 <= t < cs.len());
                                assert(nm@ == tree.nodes@[m as int].text@);
                                assert(post.1 == pre_state.1.update(
                                    t as int,
                                    set_push(pre_state.1[t as int], nm@),
                                ));
                                assert(post.0 == st1);
                                assert forall|j: int|
                                    0 <= j < syms@.len() implies dep_views(#[trigger] syms@[j])
                                    == post.1[j] by {
                                    assert(dep_views(syms_pre[j]) == pre_state.1[j]);
                                    if j == t as int {
                                        assert(dep_views(syms@[j]) == set_push(
                                            dep_views(syms_pre[j]),
                                            nm@,
                                        ));
                                    } else {
                                        assert(syms@[j] == syms_pre[j]);
                                    }
                                }
                                assert(dep_views(syms@[st1.last().0]) == set_push(
                                    dep_views(syms_pre[st1.last().0]),
                                    tree.nodes@[field_child(
                                        *tree,
                                        i as int,
                                        "method"@,
                                    )->Some_0].text@,
                                ));
                            }
                        },
                        None => {},
                    }
                }
            }
        }
        proof {
            let post = pass2_upto(*tree, cs, file_path@, iv, i + 1);
            assert(post == pass2_step(
                *tree,
                cs,
                file_path@,
                iv,
                pre_state.0,
                pre_state.1,
                i as int,
            ));
            reveal_strlit("call_expression");
            reveal_strlit("method_call_expression");
            assert(opened == (field_child(*tree, i as int, "name"@) is Some && match_from(
                *tree,
                cs,
                file_path@,
                i as int,
                0,
            ) is Some));
            if opened {
                assert(post.1 == pre_state.1);
                assert forall|j: int| 0 <= j < syms@.len() implies dep_views(#[trigger] syms@[j])
                    == post.1[j] by {
                    assert(syms@[j] == syms_pre[j]);
                    assert(dep_views(syms_pre[j]) == pre_state.1[j]);
                }
            } else {
                assert(post.0 == st1);
                assert(stack_view(stack@) == st1);
                assert(st1.len() == stack@.len());
                assert(stack@.len() > 0 ==> st1.last() == (stack@.last().0 as int, stack@.last().1 as int));
                let is_call_spec = tree.nodes@[i as int].kind@ == "call_expression"@ && field_child(
                    *tree,
                    i as int,
                    "function"@,
                ) is Some && st1.len() > 0;
                let is_method_spec = tree.nodes@[i as int].kind@ == "method_call_expression"@
                    && field_child(*tree, i as int, "method"@) is Some && st1.len() > 0;
                if is_call_spec {
                    let f = field_child(*tree, i as int, "function"@)->Some_0;
                    let nm_spec = spec_callable_name(*tree, f, iv);
                    let t = st1.last().0;
                    assert(t == stack@.last().0 as int);
                    assert(0 <= t < cs.len());
                    if nm_spec.len() > 0 {
                        assert(dep_views(syms@[t]) == set_push(dep_views(syms_pre[t]), nm_spec));
                    } else {
                        assert(post.1 == pre_state.1);
                        assert forall|j: int|
                            0 <= j < syms@.len() implies dep_views(#[trigger] syms@[j])
                            == post.1[j] by {
                            assert(syms@[j] == syms_pre[j]);
                            assert(dep_views(syms_pre[j]) == pre_state.1[j]);
                        }
                    }
                } else if is_method_spec {
                    assert("call_expression"@.len() == 15) by {
                        reveal_strlit("call_expression");
                    }
                    assert("method_call_expression"@.len() == 22) by {
                        reveal_strlit("method_call_expression");
                    }
                    assert("call_expression"@ != "method_call_expression"@);
                    assert(st1.len() > 0 && stack@.len() > 0);
                    let m = field_child(*tree, i as int, "method"@)->Some_0;
                    let nm_spec = tree.nodes@[m].text@;
                    let t = st1.last().0;
                    assert(t == stack@.last().0 as int);
                    assert(0 <= t < cs.len());
                    assert(dep_views(syms@[t]) == set_push(dep_views(syms_pre[t]), nm_spec));
                } else {
                    assert(post.1 == pre_state.1);
                    assert forall|j: int| 0 <= j < syms@.len() implies dep_views(#[trigger] syms@[j])
                        == post.1[j] by {
                        assert(syms@[j] == syms_pre[j]);
                    }
                }
            }
        }
        i = i + 1;
    }
}

/// Extracts one file's symbols: collects the definitions and imports, then
/// walks the tree again to record each symbol's raw reference names. The
/// result carries one symbol per defining node, in arena order, with its
/// name-token location and the reference names `pass2_upto` folds up.
pub fn extract_symbols(
    adapter: &RustIndexer,
    tree: &SyntaxTree,
    file_path: &String,
) -> (r: Vec<RawSymbol>)
    requires
        tree.wf(),
    ensures
        r@.len() == def_nodes_upto(*tree, tree.nodes@.len() as int).len(),
        forall|j: int|
            0 <= j < r@.len() ==> raw_matches_def(
                *tree,
                file_path@,
                def_nodes_upto(*tree, tree.nodes@.len() as int)[j],
                #[trigger] r@[j],
            ),
        forall|j: int|
            0 <= j < r@.len() ==> dep_views(#[trigger] r@[j]) == pass2_upto(
                *tree,
                cores(r@),
                file_path@,
                imports_upto(*tree, tree.nodes@.len() as int),
                tree.nodes@.len() as int,
            ).1[j],
{
    let collected = collect_definitions_and_imports(adapter, tree, file_path);
    let mut syms = collected.0;
    let imports = collected.1;
    let ghost syms0 = syms@;
    gather_references(adapter, tree, file_path, &mut syms, &imports);
    proof {
        assert(cores(syms@) =~= cores(syms0)) by {
            assert forall|j: int| 0 <= j < syms0.len() implies cores(syms@)[j] == cores(
                syms0,
            )[j] by {
                assert(core_of(syms@[j]) == core_of(syms0[j]));
            }
        }
        assert forall|j: int|
            0 <= j < syms@.len() implies raw_matches_def(
            *tree,
            file_path@,
            def_nodes_upto(*tree, tree.nodes@.len() as int)[j],
            #[trigger] syms@[j],
        ) by {
            assert(raw_matches_def(
                *tree,
                file_path@,
                def_nodes_upto(*tree, tree.nodes@.len() as int)[j],
                syms0[j],
            ));
        }
    }
    syms
}

} // verus!
