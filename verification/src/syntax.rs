use vstd::prelude::*;

use crate::errors::ContextMeshError;
use crate::ts;

verus! {

/// One node of a lowered syntax tree: the grammar-rule name, the source text
/// the node spans, its location, the grammar field it hangs under within its
/// parent, its direct children as arena indices, and the exclusive end of
/// its subtree in the pre-order arena.
pub struct SyntaxNodeData {
    pub kind: String,
    pub text: String,
    pub start_byte: usize,
    pub end_byte: usize,
    pub start_row: usize,
    pub field: Option<String>,
    pub children: Vec<usize>,
    pub subtree_end: usize,
}

/// A whole syntax tree, stored as a pre-order arena: a node's subtree is the
/// index range from the node to its `subtree_end`.
pub struct SyntaxTree {
    pub nodes: Vec<SyntaxNodeData>,
}

impl SyntaxTree {
    /// Arena sanity: every subtree range stays within the arena, contains
    /// its own node, and holds all the node's children.
    pub open spec fn wf(self) -> bool {
        forall|i: int|
            0 <= i < self.nodes@.len() ==> {
                let nd = #[trigger] self.nodes@[i];
                &&& nd.subtree_end <= self.nodes@.len()
                &&& i < nd.subtree_end
                &&& forall|k: int|
                    0 <= k < nd.children@.len() ==> i < (#[trigger] nd.children@[k])
                        < nd.subtree_end
            }
    }

    /// How many nodes the tree holds.
    pub fn len(&self) -> (r: usize)
        ensures
            r == self.nodes@.len(),
    {
        self.nodes.len()
    }
}

/// Checks the arena sanity of `tree`, returning exactly whether it holds.
pub fn check_wf(tree: &SyntaxTree) -> (r: bool)
    ensures
        r == tree.wf(),
{
    let n = tree.nodes.len();
    let mut i: usize = 0;
    while i < n
        invariant
            n == tree.nodes@.len(),
            i <= n,
            forall|j: int|
                0 <= j < i ==> {
                    let nd = #[trigger] tree.nodes@[j];
                    &&& nd.subtree_end <= n
                    &&& j < nd.subtree_end
                    &&& forall|k: int|
                        0 <= k < nd.children@.len() ==> j < (#[trigger] nd.children@[k])
                            < nd.subtree_end
                },
        decreases n - i,
    {
        let nd = &tree.nodes[i];
        if !(nd.subtree_end <= n && i < nd.subtree_end) {
            return false;
        }
        let nc = nd.children.len();
        let mut k: usize = 0;
        while k < nc
            invariant
                nc == nd.children@.len(),
                k <= nc,
                nd == tree.nodes@[i as int],
                i < n,
                n == tree.nodes@.len(),
                nd.subtree_end <= n,
                i < nd.subtree_end,
                forall|k2: int|
                    0 <= k2 < k ==> i < (#[trigger] nd.children@[k2]) < nd.subtree_end,
            decreases nc - k,
        {
            if !(i < nd.children[k] && nd.children[k] < nd.subtree_end) {
                return false;
            }
            k = k + 1;
        }
        i = i + 1;
    }
    true
}

/// Child `c` (an arena index) hangs under grammar field `f`: it is in range
/// and declares that field name.
pub open spec fn spec_field_is(tree: SyntaxTree, c: int, f: Seq<char>) -> bool {
    0 <= c < tree.nodes@.len() && match tree.nodes@[c].field {
        Some(g) => g@ == f,
        None => false,
    }
}

/// The first child of node `i`, starting at child position `k`, that hangs
/// under grammar field `f`, as an arena index.
pub open spec fn field_child_from(tree: SyntaxTree, i: int, f: Seq<char>, k: int) -> Option<int>
    decreases tree.nodes@[i].children@.len() - k,
{
    if 0 <= i < tree.nodes@.len() && 0 <= k < tree.nodes@[i].children@.len() {
        let c = tree.nodes@[i].children@[k] as int;
        if spec_field_is(tree, c, f) {
            Some(c)
        } else {
            field_child_from(tree, i, f, k + 1)
        }
    } else {
        None
    }
}

/// The first child of node `i` that hangs under grammar field `f`.
pub open spec fn field_child(tree: SyntaxTree, i: int, f: Seq<char>) -> Option<int> {
    field_child_from(tree, i, f, 0)
}

/// The first child of node `i` that hangs under grammar field `field_name`,
/// as an arena index.
pub fn child_by_field(tree: &SyntaxTree, i: usize, field_name: &str) -> (r: Option<usize>)
    requires
        tree.wf(),
        i < tree.nodes@.len(),
    ensures
        match r {
            Some(c) => field_child(*tree, i as int, field_name@) == Some(c as int) && c
                < tree.nodes@.len(),
            None => field_child(*tree, i as int, field_name@) is None,
        },
{
    let nc = tree.nodes[i].children.len();
    let mut k: usize = 0;
    while k < nc
        invariant
            tree.wf(),
            i < tree.nodes@.len(),
            nc == tree.nodes@[i as int].children@.len(),
            k <= nc,
            field_child(*tree, i as int, field_name@) == field_child_from(
                *tree,
                i as int,
                field_name@,
                k as int,
            ),
        decreases nc - k,
    {
        let c = tree.nodes[i].children[k];
        proof {
            assert(tree.nodes@[i as int].children@[k as int] < tree.nodes@.len());
        }
        match &tree.nodes[c].field {
            Some(f) => {
                if crate::strutil::string_eq_str(f, field_name) {
                    proof {
                        assert(spec_field_is(*tree, c as int, field_name@));
                    }
                    return Some(c);
                }
            },
            None => {},
        }
        proof {
            assert(!spec_field_is(*tree, c as int, field_name@));
        }
        k = k + 1;
    }
    None
}

// The lowering pass walks the parser's tree iteratively and rebuilds it in
// the arena. What the parser produced is opaque, so nothing relates the
// arena to the input bytes; every later pass works on the arena alone and
// is verified for every arena the lowering could produce.

struct Frame<'a> {
    node: tree_sitter::Node<'a>,
    arena_idx: usize,
    next_child: usize,
    child_count: usize,
}

/// The text a node spans: the byte range, decoded as UTF-8. None when the
/// range is out of bounds or not valid UTF-8.
fn node_text(node: &tree_sitter::Node<'_>, code: &[u8]) -> (r: Option<String>) {
    let s = ts::node_start_byte(node);
    let e = ts::node_end_byte(node);
    if s > e || e > code.len() {
        return None;
    }
    let mut buf: Vec<u8> = Vec::new();
    let mut i: usize = s;
    while i < e
        invariant
            s <= i <= e,
            e <= code@.len(),
        decreases e - i,
    {
        buf.push(code[i]);
        i = i + 1;
    }
    ts::bytes_to_string(buf.as_slice())
}

/// The arena entry for one parser node, children and subtree end not yet
/// known. None when the node's text cannot be decoded.
fn make_node_data(
    node: &tree_sitter::Node<'_>,
    field: Option<String>,
    code: &[u8],
) -> (r: Option<SyntaxNodeData>) {
    let text = match node_text(node, code) {
        Some(t) => t,
        None => {
            return None;
        },
    };
    Some(
        SyntaxNodeData {
            kind: ts::node_kind(node),
            text,
            start_byte: ts::node_start_byte(node),
            end_byte: ts::node_end_byte(node),
            start_row: ts::node_start_row(node),
            field,
            children: Vec::new(),
            subtree_end: 0,
        },
    )
}

/// Replaces the element at `i`.
fn set_node(v: &mut Vec<SyntaxNodeData>, i: usize, x: SyntaxNodeData)
    requires
        i < old(v)@.len(),
    ensures
        final(v)@ == old(v)@.update(i as int, x),
{
    let ghost oldv = v@;
    let _prev = v.remove(i);
    v.insert(i, x);
    proof {
        assert(v@ =~= oldv.update(i as int, x));
    }
}

/// Lowers a parser tree into the arena form, walking it iteratively. None
/// when some node's text is not valid UTF-8 or the rebuilt arena fails its
/// sanity check.
pub fn lower_tree(root: tree_sitter::Node<'_>, code: &[u8]) -> (r: Option<SyntaxTree>)
    ensures
        r matches Some(t) ==> t.wf(),
{
    let root_count = ts::node_child_count(&root);
    let first = match make_node_data(&root, None, code) {
        Some(d) => d,
        None => {
            return None;
        },
    };
    let mut nodes: Vec<SyntaxNodeData> = Vec::new();
    nodes.push(first);
    let mut stack: Vec<Frame<'_>> = Vec::new();
    stack.push(Frame { node: root, arena_idx: 0, next_child: 0, child_count: root_count });
    // Nothing verifiable bounds the opaque parser tree, so the walk carries
    // explicit fuel; a well-formed tree never comes close to using it up.
    let mut fuel: u64 = u64::MAX;
    while stack.len() > 0
        invariant
            forall|f: int| 0 <= f < stack@.len() ==> (#[trigger] stack@[f]).arena_idx < nodes@.len(),
        decreases fuel,
    {
        if fuel == 0 {
            return None;
        }
        fuel = fuel - 1;
        let top = stack.len() - 1;
        let frame_arena_idx = stack[top].arena_idx;
        let frame_next = stack[top].next_child;
        let frame_count = stack[top].child_count;
        if frame_next < frame_count {
            let child = match ts::node_child(&stack[top].node, frame_next) {
                Some(c) => c,
                None => {
                    return None;
                },
            };
            // Record which grammar field the child occupies, when any.
            let field = if frame_next <= u32::MAX as usize {
                ts::node_field_name_for_child(&stack[top].node, frame_next as u32)
            } else {
                None
            };
            let mut fr = stack.remove(top);
            fr.next_child = frame_next + 1;
            stack.insert(top, fr);
            let data = match make_node_data(&child, field, code) {
                Some(d) => d,
                None => {
                    return None;
                },
            };
            let child_idx = nodes.len();
            nodes.push(data);
            let mut parent = nodes.remove(frame_arena_idx);
            parent.children.push(child_idx);
            nodes.insert(frame_arena_idx, parent);
            let ccount = ts::node_child_count(&child);
            stack.push(
                Frame { node: child, arena_idx: child_idx, next_child: 0, child_count: ccount },
            );
        } else {
            let cur_len = nodes.len();
            let mut fr = nodes.remove(frame_arena_idx);
            fr.subtree_end = cur_len;
            nodes.insert(frame_arena_idx, fr);
            let _done = stack.remove(top);
        }
    }
    let tree = SyntaxTree { nodes };
    if check_wf(&tree) {
        Some(tree)
    } else {
        None
    }
}

/// Parses Rust source bytes into the arena tree: the grammar is loaded, the
/// bytes parsed, and the parser's tree lowered. A parser failure reports
/// `ParseError`; undecodable node text reports `DecodeError`.
pub fn parse_rust_source(bytes: &Vec<u8>) -> (r: Result<SyntaxTree, ContextMeshError>)
    ensures
        r matches Ok(t) ==> t.wf(),
{
    let mut parser = ts::parser_new();
    if !ts::set_language(&mut parser, ts::rust_language()) {
        return Err(ContextMeshError::ParseError(crate::strutil::str_to_string("no rust grammar")));
    }
    let tree = match ts::parse_bytes(&mut parser, bytes.as_slice()) {
        Some(t) => t,
        None => {
            return Err(
                ContextMeshError::ParseError(crate::strutil::str_to_string("parsing halted")),
            );
        },
    };
    let root = ts::tree_root(&tree);
    match lower_tree(root, bytes.as_slice()) {
        Some(t) => Ok(t),
        None => Err(
            ContextMeshError::DecodeError(crate::strutil::str_to_string("source text not utf-8")),
        ),
    }
}

} // verus!
