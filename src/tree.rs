//! A search over a tree held in memory: the walk of the file system, one task
//! at a time, over a snapshot of what each entry is and holds.
use vstd::prelude::*;
use crate::config::SearchOptions;
use crate::matcher::{any_line_matches, any_line_matches_spec};
use crate::walker::{classify, EntryKind, Step};

verus! {

broadcast use vstd::std_specs::vec::group_vec_axioms;

/// One entry of a snapshot of a directory tree.
#[derive(Debug)]
pub enum Node {
    /// A regular file, with its path and its lines.
    File { path: String, lines: Vec<Vec<u8>> },
    /// A directory and its entries, in listing order.
    Directory { children: Vec<Node> },
    /// Anything that is neither a readable file nor a listable directory.
    Other,
}

/// The paths that a search records under `n`, visited at `depth`, in the
/// order in which a walk over the entries in listing order records them.
pub open spec fn found(n: Node, query: Seq<u8>, match_case: bool, recursive: bool, depth: nat) -> Seq<
    String,
>
    decreases n,
{
    match n {
        Node::File { path, lines } => if any_line_matches_spec(lines@, query, match_case) {
            seq![path]
        } else {
            seq![]
        },
        Node::Directory { children } => if recursive || depth == 0 {
            found_in(children@, query, match_case, recursive, depth + 1)
        } else {
            seq![]
        },
        Node::Other => seq![],
    }
}

/// The paths recorded under each of `nodes` in turn, all visited at `depth`.
pub open spec fn found_in(
    nodes: Seq<Node>,
    query: Seq<u8>,
    match_case: bool,
    recursive: bool,
    depth: nat,
) -> Seq<String>
    decreases nodes,
{
    if nodes.len() == 0 {
        seq![]
    } else {
        found_in(nodes.drop_last(), query, match_case, recursive, depth) + found(
            nodes.last(),
            query,
            match_case,
            recursive,
            depth,
        )
    }
}

/// The files that a walk reads under `n`, visited at `depth`, in the order
/// in which it reads them: every file reached under the depth policy, once.
pub open spec fn scanned(n: Node, recursive: bool, depth: nat) -> Seq<Node>
    decreases n,
{
    match n {
        Node::File { .. } => seq![n],
        Node::Directory { children } => if recursive || depth == 0 {
            scanned_in(children@, recursive, depth + 1)
        } else {
            seq![]
        },
        Node::Other => seq![],
    }
}

/// The files read under each of `nodes` in turn, all visited at `depth`.
pub open spec fn scanned_in(nodes: Seq<Node>, recursive: bool, depth: nat) -> Seq<Node>
    decreases nodes,
{
    if nodes.len() == 0 {
        seq![]
    } else {
        scanned_in(nodes.drop_last(), recursive, depth) + scanned(nodes.last(), recursive, depth)
    }
}

/// A file node some line of which matches the query.
pub open spec fn file_matches(n: Node, query: Seq<u8>, match_case: bool) -> bool {
    match n {
        Node::File { lines, .. } => any_line_matches_spec(lines@, query, match_case),
        _ => false,
    }
}

/// The path of a file node.
pub open spec fn path_of(n: Node) -> String {
    match n {
        Node::File { path, .. } => path,
        _ => arbitrary(),
    }
}

/// The paths of the matching files among `files`, in their order.
pub open spec fn matching_paths(files: Seq<Node>, query: Seq<u8>, match_case: bool) -> Seq<String> {
    files.filter(|f: Node| file_matches(f, query, match_case)).map_values(|f: Node| path_of(f))
}

proof fn lemma_matching_paths_concat(a: Seq<Node>, b: Seq<Node>, query: Seq<u8>, match_case: bool)
    ensures
        matching_paths(a + b, query, match_case) == matching_paths(a, query, match_case)
            + matching_paths(b, query, match_case),
{
    let pred = |f: Node| file_matches(f, query, match_case);
    Seq::filter_distributes_over_add(a, b, pred);
    assert((a.filter(pred) + b.filter(pred)).map_values(|f: Node| path_of(f)) =~= a.filter(
        pred,
    ).map_values(|f: Node| path_of(f)) + b.filter(pred).map_values(|f: Node| path_of(f)));
}

/// Every file reached under the depth policy whose content matches shows up
/// in the results exactly once, and nothing else does: the results are the
/// paths of the matching files among those read, one entry per file, in the
/// order in which they are read.
pub proof fn lemma_found_is_matching_scanned(
    n: Node,
    query: Seq<u8>,
    match_case: bool,
    recursive: bool,
    depth: nat,
)
    ensures
        found(n, query, match_case, recursive, depth) == matching_paths(
            scanned(n, recursive, depth),
            query,
            match_case,
        ),
    decreases n, 1nat,
{
    match n {
        Node::File { .. } => {
            let pred = |f: Node| file_matches(f, query, match_case);
            let one = seq![n];
            assert(one =~= Seq::<Node>::empty().push(n));
            Seq::<Node>::empty().lemma_filter_push(n, pred);
            reveal(Seq::filter);
            assert(Seq::<Node>::empty().filter(pred) =~= Seq::<Node>::empty());
            assert(matching_paths(one, query, match_case) =~= found(
                n,
                query,
                match_case,
                recursive,
                depth,
            ));
        },
        Node::Directory { children } => {
            if recursive || depth == 0 {
                lemma_found_in_is_matching_scanned(children@, query, match_case, recursive, depth + 1);
            } else {
                assert(matching_paths(seq![], query, match_case) =~= seq![]);
            }
        },
        Node::Other => {
            assert(matching_paths(seq![], query, match_case) =~= seq![]);
        },
    }
}

proof fn lemma_found_in_is_matching_scanned(
    nodes: Seq<Node>,
    query: Seq<u8>,
    match_case: bool,
    recursive: bool,
    depth: nat,
)
    ensures
        found_in(nodes, query, match_case, recursive, depth) == matching_paths(
            scanned_in(nodes, recursive, depth),
            query,
            match_case,
        ),
    decreases nodes, 0nat,
{
    if nodes.len() == 0 {
        assert(matching_paths(seq![], query, match_case) =~= seq![]);
    } else {
        lemma_found_in_is_matching_scanned(nodes.drop_last(), query, match_case, recursive, depth);
        lemma_found_is_matching_scanned(nodes.last(), query, match_case, recursive, depth);
        lemma_matching_paths_concat(
            scanned_in(nodes.drop_last(), recursive, depth),
            scanned(nodes.last(), recursive, depth),
            query,
            match_case,
        );
    }
}

proof fn lemma_scanned_in_shallow(nodes: Seq<Node>)
    ensures
        forall|i: int|
            0 <= i < scanned_in(nodes, false, 1).len() ==> nodes.contains(
                #[trigger] scanned_in(nodes, false, 1)[i],
            ),
    decreases nodes.len(),
{
    if nodes.len() > 0 {
        let rest = nodes.drop_last();
        lemma_scanned_in_shallow(rest);
        let front = scanned_in(rest, false, 1);
        let back = scanned(nodes.last(), false, 1);
        assert forall|i: int| 0 <= i < scanned_in(nodes, false, 1).len() implies nodes.contains(
            #[trigger] scanned_in(nodes, false, 1)[i],
        ) by {
            if i < front.len() {
                let k = choose|k: int| 0 <= k < rest.len() && rest[k] == front[i];
                assert(nodes[k] == rest[k]);
            } else {
                assert(back.len() == 1 && back[0] == nodes.last());
                assert(nodes[nodes.len() - 1] == nodes.last());
            }
        }
    }
}

/// Without recursion the walk reads no file deeper than the root's own
/// entries: every file read is the root itself or one of its direct entries,
/// even where a deeper file would hold the query.
pub proof fn lemma_flat_scan_depth(root: Node)
    ensures
        forall|i: int|
            0 <= i < scanned(root, false, 0).len() ==> {
                let f = #[trigger] scanned(root, false, 0)[i];
                f == root || match root {
                    Node::Directory { children } => children@.contains(f),
                    _ => false,
                }
            },
{
    match root {
        Node::Directory { children } => {
            lemma_scanned_in_shallow(children@);
            assert(scanned(root, false, 0) == scanned_in(children@, false, 1));
        },
        Node::File { .. } => {
            assert(scanned(root, false, 0) == seq![root]);
        },
        Node::Other => {
            assert(scanned(root, false, 0).len() == 0);
        },
    }
}

/// Below the root, how deep an entry lies does not change what is recorded.
proof fn lemma_found_below_root(n: Node, query: Seq<u8>, match_case: bool, recursive: bool, a: nat, b: nat)
    requires
        a >= 1,
        b >= 1,
    ensures
        found(n, query, match_case, recursive, a) == found(n, query, match_case, recursive, b),
    decreases n, 1nat,
{
    if let Node::Directory { children } = n {
        lemma_found_in_below_root(children@, query, match_case, recursive, a + 1, b + 1);
    }
}

proof fn lemma_found_in_below_root(
    nodes: Seq<Node>,
    query: Seq<u8>,
    match_case: bool,
    recursive: bool,
    a: nat,
    b: nat,
)
    requires
        a >= 1,
        b >= 1,
    ensures
        found_in(nodes, query, match_case, recursive, a) == found_in(nodes, query, match_case, recursive, b),
    decreases nodes, 0nat,
{
    if nodes.len() > 0 {
        lemma_found_in_below_root(nodes.drop_last(), query, match_case, recursive, a, b);
        lemma_found_below_root(nodes.last(), query, match_case, recursive, a, b);
    }
}

/// Visits `node` at `depth` and appends what it records to `results`.
fn walk_node(node: &Node, opts: &SearchOptions, depth: usize, results: &mut Vec<String>)
    ensures
        final(results)@ == old(results)@ + found(*node, opts.query@, opts.match_case, opts.recursive, depth as nat),
    decreases node,
{
    let kind = match node {
        Node::File { .. } => EntryKind::File,
        Node::Directory { .. } => EntryKind::Directory,
        Node::Other => EntryKind::Other,
    };
    let step = classify(kind, opts.recursive, depth);
    match node {
        Node::File { path, lines } => {
            if step == Step::Scan && any_line_matches(lines, opts.query.as_slice(), opts.match_case) {
                results.push(path.clone());
                assert(final(results)@ =~= old(results)@ + seq![*path]);
            } else {
                assert(final(results)@ =~= old(results)@ + seq![]);
            }
        },
        Node::Directory { children } => {
            if step == Step::Descend {
                let child_depth: usize = if depth < usize::MAX { depth + 1 } else { depth };
                walk_children(children, opts, depth, child_depth, results);
            } else {
                assert(final(results)@ =~= old(results)@ + seq![]);
            }
        },
        Node::Other => {
            assert(final(results)@ =~= old(results)@ + seq![]);
        },
    }
}

/// Visits each of `children`, entries of a directory at `depth`, in turn at
/// `child_depth`, which stands for `depth + 1` (deeper levels all count alike).
fn walk_children(
    children: &Vec<Node>,
    opts: &SearchOptions,
    depth: usize,
    child_depth: usize,
    results: &mut Vec<String>,
)
    requires
        child_depth >= 1,
    ensures
        final(results)@ == old(results)@ + found_in(
            children@,
            opts.query@,
            opts.match_case,
            opts.recursive,
            depth as nat + 1,
        ),
    decreases children,
{
    let ghost start = results@;
    let mut i: usize = 0;
    while i < children.len()
        invariant
            i <= children@.len(),
            1 <= child_depth,
            results@ == start + found_in(
                children@.subrange(0, i as int),
                opts.query@,
                opts.match_case,
                opts.recursive,
                depth as nat + 1,
            ),
        decreases children@.len() - i,
    {
        proof {
            assert(decreases_to!(*children => children[i as int]));
        }
        walk_node(&children[i], opts, child_depth, results);
        proof {
            lemma_found_below_root(
                children@[i as int],
                opts.query@,
                opts.match_case,
                opts.recursive,
                child_depth as nat,
                depth as nat + 1,
            );
            let prefix = children@.subrange(0, i + 1);
            assert(prefix.drop_last() =~= children@.subrange(0, i as int));
            assert(prefix.last() == children@[i as int]);
        }
        i += 1;
    }
    assert(children@.subrange(0, children@.len() as int) =~= children@);
}

/// Searches the snapshot rooted at `root`: the paths of the files reached
/// under the options' depth policy that hold a line matching the query, in
/// the order of a walk over the entries in listing order. The limit on
/// concurrent tasks does not change what is found.
pub fn search_tree(root: &Node, opts: &SearchOptions) -> (r: Vec<String>)
    ensures
        r@ == found(*root, opts.query@, opts.match_case, opts.recursive, 0),
{
    let mut results: Vec<String> = Vec::new();
    walk_node(root, opts, 0, &mut results);
    assert(results@ =~= seq![] + found(*root, opts.query@, opts.match_case, opts.recursive, 0));
    results
}

/// Searching the same unchanged tree twice, with the same query and policies,
/// gives the same results, whatever limit on concurrent tasks each run had.
pub proof fn lemma_search_repeatable(
    root: Node,
    first: SearchOptions,
    second: SearchOptions,
    first_results: Seq<String>,
    second_results: Seq<String>,
)
    requires
        first.query@ == second.query@,
        first.match_case == second.match_case,
        first.recursive == second.recursive,
        first_results == found(root, first.query@, first.match_case, first.recursive, 0),
        second_results == found(root, second.query@, second.match_case, second.recursive, 0),
    ensures
        first_results.to_set() == second_results.to_set(),
        first_results == second_results,
{
}

} // verus!
