use vstd::prelude::*;

use crate::error::CodicatError;
use crate::pathset::{canonical, lemma_canonical, path_views, relative, strictly_sorted};
use crate::pathset::{lemma_sorted_insert_exists, relative_components, sorted_insert};
use crate::text::{chars_lt, components, is_segment, lemma_components_are_segments, path_components, views};
use crate::text::{lemma_chars_lt_irreflexive, lemma_chars_lt_total, lemma_chars_lt_transitive};

verus! {

/// The abstract value of a tree node: its segment, whether some path ends
/// at it, and its children in rendering order.
pub struct Node {
    pub name: Seq<char>,
    pub is_file: bool,
    pub children: Seq<Node>,
}

/// One path segment of a tree of listed files. A node owns its children,
/// which are kept sorted by name, names unique.
#[derive(Debug)]
pub struct TreeNode {
    name: String,
    is_file: bool,
    children: Vec<TreeNode>,
}

impl View for TreeNode {
    type V = Node;

    closed spec fn view(&self) -> Node
        decreases self,
    {
        Node {
            name: self.name@,
            is_file: self.is_file,
            children: Seq::new(
                self.children@.len(),
                |i: int|
                    if 0 <= i < self.children@.len() {
                        self.children@[i].view()
                    } else {
                        leaf(Seq::empty(), false)
                    },
            ),
        }
    }
}

pub open spec fn leaf(name: Seq<char>, is_file: bool) -> Node {
    Node { name, is_file, children: Seq::empty() }
}

/// Children strictly ascending by name, each name a segment, all the way down.
pub open spec fn is_wf(n: Node) -> bool
    decreases n,
{
    &&& forall|i: int, j: int|
        0 <= i < j < n.children.len() ==> chars_lt(
            #[trigger] n.children[i].name,
            #[trigger] n.children[j].name,
        )
    &&& forall|i: int|
        0 <= i < n.children.len() ==> is_segment(#[trigger] n.children[i].name) && is_wf(
            n.children[i],
        )
}

/// The first position at or after `j` whose child does not sort before `name`.
pub open spec fn scan(cs: Seq<Node>, name: Seq<char>, j: int) -> int
    decreases cs.len() - j,
{
    if j >= cs.len() || j < 0 || !chars_lt(cs[j].name, name) {
        j
    } else {
        scan(cs, name, j + 1)
    }
}

/// Adds the path `p` (its segments) below `n`: each segment is found among
/// the children or added at its place in name order, and the node of the
/// last segment is marked as a file.
pub open spec fn insert_spec(n: Node, p: Seq<Seq<char>>) -> Node
    decreases p.len(),
{
    if p.len() == 0 {
        n
    } else {
        let j = scan(n.children, p[0], 0);
        let last = p.len() == 1;
        if j < n.children.len() && n.children[j].name == p[0] {
            let c = n.children[j];
            let c2 = insert_spec(Node { is_file: c.is_file || last, ..c }, p.drop_first());
            Node { children: n.children.update(j, c2), ..n }
        } else {
            let c2 = insert_spec(leaf(p[0], last), p.drop_first());
            Node { children: n.children.insert(j, c2), ..n }
        }
    }
}

proof fn lemma_scan(cs: Seq<Node>, name: Seq<char>, j: int)
    requires
        0 <= j <= cs.len(),
    ensures
        j <= scan(cs, name, j) <= cs.len(),
        forall|k: int| j <= k < scan(cs, name, j) ==> chars_lt(#[trigger] cs[k].name, name),
        scan(cs, name, j) < cs.len() ==> !chars_lt(cs[scan(cs, name, j)].name, name),
    decreases cs.len() - j,
{
    if j < cs.len() && chars_lt(cs[j].name, name) {
        lemma_scan(cs, name, j + 1);
    }
}

proof fn lemma_wf_intro(m: Node)
    requires
        forall|i: int, j: int|
            0 <= i < j < m.children.len() ==> chars_lt(
                #[trigger] m.children[i].name,
                #[trigger] m.children[j].name,
            ),
        forall|i: int|
            0 <= i < m.children.len() ==> is_segment(#[trigger] m.children[i].name) && is_wf(
                m.children[i],
            ),
    ensures
        is_wf(m),
{
    assert forall|i: int| 0 <= i < m.children.len() implies decreases_to!(m => m.children[i]) by {
        assert(decreases_to!(m.children => m.children[i]));
    }
}

proof fn lemma_wf_elim(m: Node)
    requires
        is_wf(m),
    ensures
        forall|i: int, j: int|
            0 <= i < j < m.children.len() ==> chars_lt(
                #[trigger] m.children[i].name,
                #[trigger] m.children[j].name,
            ),
        forall|i: int|
            0 <= i < m.children.len() ==> is_segment(#[trigger] m.children[i].name) && is_wf(
                m.children[i],
            ),
{
    assert forall|i: int| 0 <= i < m.children.len() implies decreases_to!(m => m.children[i]) by {
        assert(decreases_to!(m.children => m.children[i]));
    }
}

#[verifier::spinoff_prover]
proof fn lemma_insert_wf(n: Node, p: Seq<Seq<char>>)
    requires
        is_wf(n),
        forall|k: int| 0 <= k < p.len() ==> is_segment(#[trigger] p[k]),
    ensures
        is_wf(insert_spec(n, p)),
        insert_spec(n, p).name == n.name,
    decreases p.len(),
{
    if p.len() > 0 {
        let cs = n.children;
        let j = scan(cs, p[0], 0);
        let last = p.len() == 1;
        let rest = p.drop_first();
        assert forall|k: int| 0 <= k < rest.len() implies is_segment(#[trigger] rest[k]) by {
            assert(rest[k] == p[k + 1]);
        }
        lemma_scan(cs, p[0], 0);
        lemma_wf_elim(n);
        if j < cs.len() && cs[j].name == p[0] {
            let c = cs[j];
            let c1 = Node { is_file: c.is_file || last, ..c };
            assert(is_wf(c));
            assert(is_wf(c1));
            lemma_insert_wf(c1, rest);
            let c2 = insert_spec(c1, rest);
            let cs2 = cs.update(j, c2);
            let m = Node { children: cs2, ..n };
            assert(m.children == cs2);
            assert forall|a: int, b: int| 0 <= a < b < m.children.len() implies chars_lt(
                #[trigger] m.children[a].name,
                #[trigger] m.children[b].name,
            ) by {
                assert(cs2[a].name == cs[a].name);
                assert(cs2[b].name == cs[b].name);
            }
            assert forall|i: int| 0 <= i < m.children.len() implies is_segment(
                #[trigger] m.children[i].name,
            ) && is_wf(m.children[i]) by {
                if i != j {
                    assert(cs2[i] == cs[i]);
                    assert(is_segment(cs[i].name));
                } else {
                    assert(cs2[i] == c2);
                    assert(is_segment(cs[j].name));
                }
            }
            lemma_wf_intro(m);
        } else {
            let c1 = leaf(p[0], last);
            assert(is_wf(c1));
            lemma_insert_wf(c1, rest);
            let c2 = insert_spec(c1, rest);
            let cs2 = cs.insert(j, c2);
            let m = Node { children: cs2, ..n };
            assert(m.children == cs2);
            if j < cs.len() {
                lemma_chars_lt_total(cs[j].name, p[0]);
            }
            assert forall|a: int, b: int| 0 <= a < b < m.children.len() implies chars_lt(
                #[trigger] m.children[a].name,
                #[trigger] m.children[b].name,
            ) by {
                if b < j {
                    assert(cs2[a] == cs[a] && cs2[b] == cs[b]);
                } else if b == j {
                    assert(cs2[a] == cs[a]);
                } else if a < j {
                    assert(cs2[a] == cs[a] && cs2[b] == cs[b - 1]);
                    assert(chars_lt(cs[a].name, p[0]));
                    assert(chars_lt(p[0], cs[j].name));
                    if b - 1 > j {
                        lemma_chars_lt_transitive(p[0], cs[j].name, cs[b - 1].name);
                    }
                    lemma_chars_lt_transitive(cs[a].name, p[0], cs[b - 1].name);
                } else if a == j {
                    assert(cs2[b] == cs[b - 1]);
                    if b - 1 > j {
                        lemma_chars_lt_transitive(p[0], cs[j].name, cs[b - 1].name);
                    }
                } else {
                    assert(cs2[a] == cs[a - 1] && cs2[b] == cs[b - 1]);
                }
            }
            assert forall|i: int| 0 <= i < m.children.len() implies is_segment(
                #[trigger] m.children[i].name,
            ) && is_wf(m.children[i]) by {
                if i < j {
                    assert(cs2[i] == cs[i]);
                    assert(is_segment(cs[i].name));
                } else if i > j {
                    assert(cs2[i] == cs[i - 1]);
                    assert(is_segment(cs[i - 1].name));
                } else {
                    assert(cs2[i] == c2);
                    assert(is_segment(p[0]));
                }
            }
            lemma_wf_intro(m);
        }
    }
}

impl TreeNode {
    proof fn lemma_view(&self)
        ensures
            self@.name == self.name@,
            self@.is_file == self.is_file,
            self@.children.len() == self.children@.len(),
            forall|i: int|
                0 <= i < self.children@.len() ==> #[trigger] self@.children[i]
                    == self.children@[i]@,
    {
    }

    /// A node without children.
    pub fn new(name: &str, is_file: bool) -> (r: TreeNode)
        ensures
            r@ == leaf(name@, is_file),
    {
        let r = TreeNode { name: String::from_str(name), is_file, children: Vec::new() };
        assert(r@.children =~= Seq::<Node>::empty());
        r
    }

    /// The segment this node stands for.
    pub fn name(&self) -> (r: &String)
        ensures
            r@ == self@.name,
    {
        proof {
            self.lemma_view();
        }
        &self.name
    }

    /// Whether some path ends at this node.
    pub fn is_file(&self) -> (r: bool)
        ensures
            r == self@.is_file,
    {
        proof {
            self.lemma_view();
        }
        self.is_file
    }

    /// The children, ascending by name.
    pub fn children(&self) -> (r: &Vec<TreeNode>)
        ensures
            r@.len() == self@.children.len(),
            forall|i: int| 0 <= i < r@.len() ==> #[trigger] r@[i]@ == self@.children[i],
    {
        proof {
            self.lemma_view();
        }
        &self.children
    }
}

/// The position among `children` where a child named `name` is or belongs.
fn find_child_pos(children: &Vec<TreeNode>, name: &str) -> (r: usize)
    ensures
        r == scan(children@.map_values(|c: TreeNode| c@), name@, 0),
{
    let ghost cs = children@.map_values(|c: TreeNode| c@);
    let mut j: usize = 0;
    while j < children.len() && crate::text::str_lt(children[j].name.as_str(), name)
        invariant
            cs == children@.map_values(|c: TreeNode| c@),
            j <= children@.len(),
            scan(cs, name@, 0) == scan(cs, name@, j as int),
        decreases children@.len() - j,
    {
        proof {
            children@[j as int].lemma_view();
        }
        j = j + 1;
    }
    if j < children.len() {
        proof {
            children@[j as int].lemma_view();
        }
    }
    j
}

/// Adds the path made of `comps[k..]` below `node`.
fn insert_path(node: &mut TreeNode, comps: &Vec<String>, k: usize)
    requires
        k <= comps@.len(),
        is_wf(old(node)@),
        forall|i: int| 0 <= i < comps@.len() ==> is_segment(#[trigger] comps@[i]@),
    ensures
        final(node)@ == insert_spec(old(node)@, views(comps@).skip(k as int)),
        is_wf(final(node)@),
    decreases comps@.len() - k,
{
    let ghost p = views(comps@).skip(k as int);
    let ghost n0 = node@;
    proof {
        node.lemma_view();
        assert(node.children@.map_values(|c: TreeNode| c@) =~= n0.children);
    }
    if k >= comps.len() {
        assert(p.len() == 0);
        return;
    }
    let name = &comps[k];
    let last = k + 1 == comps.len();
    let j = find_child_pos(&node.children, name.as_str());
    assert(p[0] == name@);
    assert(p.drop_first() =~= views(comps@).skip(k + 1));
    proof {
        lemma_scan(n0.children, p[0], 0);
        assert forall|i: int| 0 <= i < p.len() implies is_segment(#[trigger] p[i]) by {
            assert(p[i] == comps@[k + i]@);
        }
        lemma_insert_wf(n0, p);
    }
    if j < node.children.len() && node.children[j].name == *name {
        let mut child = node.children.remove(j);
        proof {
            child.lemma_view();
            assert(child@ == n0.children[j as int]);
            assert(is_wf(child@));
        }
        if last {
            child.is_file = true;
        }
        proof {
            child.lemma_view();
            let c = n0.children[j as int];
            assert(child@.children =~= c.children);
            assert(child@ == Node { is_file: c.is_file || last, ..c });
        }
        insert_path(&mut child, comps, k + 1);
        node.children.insert(j, child);
    } else {
        let mut child = TreeNode::new(name.as_str(), last);
        insert_path(&mut child, comps, k + 1);
        node.children.insert(j, child);
    }
    proof {
        node.lemma_view();
        let n1 = insert_spec(n0, p);
        assert(node@.children =~= n1.children);
    }
}

/// Every segment of `p` is a segment.
pub open spec fn all_segments(p: Seq<Seq<char>>) -> bool {
    forall|m: int| 0 <= m < p.len() ==> is_segment(#[trigger] p[m])
}

/// The name of the root node: the last segment of the query root, or `.`
/// where it has none.
pub open spec fn root_name(root: Seq<char>) -> Seq<char> {
    let c = components(root);
    if c.len() > 0 {
        c.last()
    } else {
        "."@
    }
}

/// `file` is the query root or lies under it.
pub open spec fn is_relevant(root: Seq<char>, file: Seq<char>) -> bool {
    relative(components(root), components(file)) is Some
}

/// The segments of `file` below the query root.
pub open spec fn rel_of(root: Seq<char>, file: Seq<char>) -> Seq<Seq<char>> {
    relative(components(root), components(file))->Some_0
}

/// Some listed path is the query root or lies under it.
pub open spec fn has_relevant(root: Seq<char>, files: Seq<Seq<char>>) -> bool {
    exists|i: int| 0 <= i < files.len() && is_relevant(root, #[trigger] files[i])
}

/// The non-empty relative paths of the first `n` listed paths that are relevant.
pub open spec fn relevant_paths(root: Seq<char>, files: Seq<Seq<char>>, n: int) -> Set<
    Seq<Seq<char>>,
> {
    Set::new(
        |p: Seq<Seq<char>>|
            exists|i: int|
                0 <= i < n && is_relevant(root, #[trigger] files[i]) && rel_of(root, files[i])
                    == p && p.len() > 0,
    )
}

/// No relevant path is a leading part of `p`: nothing on the way to `p` is
/// itself a listed file.
pub open spec fn unshadowed(root: Seq<char>, files: Seq<Seq<char>>, p: Seq<Seq<char>>) -> bool {
    forall|q: Seq<Seq<char>>|
        #[trigger] relevant_paths(root, files, files.len() as int).contains(q)
            ==> !is_proper_prefix(q, p)
}

/// `n` with the paths of `ps` added in order.
pub open spec fn build_spec(n: Node, ps: Seq<Seq<Seq<char>>>) -> Node
    decreases ps.len(),
{
    if ps.len() == 0 {
        n
    } else {
        insert_spec(build_spec(n, ps.drop_last()), ps.last())
    }
}

/// The tree of the listed paths under `root`: a directory named after the
/// root, holding the relevant paths in ascending order.
pub open spec fn tree_spec(root: Seq<char>, files: Seq<Seq<char>>) -> Node {
    build_spec(
        leaf(root_name(root), false),
        canonical(relevant_paths(root, files, files.len() as int)),
    )
}

pub open spec fn connector(last: bool) -> Seq<char> {
    if last {
        "\u{2514}\u{2500}\u{2500} "@
    } else {
        "\u{251c}\u{2500}\u{2500} "@
    }
}

pub open spec fn indent(last: bool) -> Seq<char> {
    if last {
        "  "@
    } else {
        "\u{2502} "@
    }
}

/// The lines for the children `cs[i..]`, each after `prefix`. A file node's
/// children are never shown.
pub open spec fn lines_from(cs: Seq<Node>, i: int, prefix: Seq<char>) -> Seq<Seq<char>>
    decreases cs, cs.len() - i,
{
    if i < 0 || i >= cs.len() {
        Seq::empty()
    } else {
        let c = cs[i];
        let last = i == cs.len() - 1;
        let sub = if c.is_file {
            Seq::empty()
        } else {
            lines_from(c.children, 0, prefix + indent(last))
        };
        seq![prefix + connector(last) + c.name] + sub + lines_from(cs, i + 1, prefix)
    }
}

/// The lines of a rendered tree: the root's bare name, then its descendants.
pub open spec fn tree_lines(n: Node) -> Seq<Seq<char>> {
    seq![n.name] + lines_from(n.children, 0, Seq::empty())
}

/// Each line followed by a line break.
pub open spec fn join_lines(ls: Seq<Seq<char>>) -> Seq<char>
    decreases ls.len(),
{
    if ls.len() == 0 {
        Seq::empty()
    } else {
        ls[0] + "\n"@ + join_lines(ls.drop_first())
    }
}

pub open spec fn render_text(n: Node) -> Seq<char> {
    join_lines(tree_lines(n))
}

/// What the tree view of `root` over `files` prints, or `None` where no
/// listed path lies under `root`.
pub open spec fn tree_view_text(root: Seq<char>, files: Seq<Seq<char>>) -> Option<Seq<char>> {
    if has_relevant(root, files) {
        Some(render_text(tree_spec(root, files)))
    } else {
        None
    }
}

pub proof fn lemma_join_concat(a: Seq<Seq<char>>, b: Seq<Seq<char>>)
    ensures
        join_lines(a + b) == join_lines(a) + join_lines(b),
    decreases a.len(),
{
    if a.len() == 0 {
        assert(a + b =~= b);
    } else {
        lemma_join_concat(a.drop_first(), b);
        assert((a + b).drop_first() =~= a.drop_first() + b);
    }
}

pub proof fn lemma_join_one(line: Seq<char>)
    ensures
        join_lines(seq![line]) == line + "\n"@,
{
    assert(seq![line].drop_first() =~= Seq::<Seq<char>>::empty());
    assert(join_lines(Seq::<Seq<char>>::empty()) == Seq::<char>::empty());
    assert(line + "\n"@ + Seq::<char>::empty() =~= line + "\n"@);
}

/// Builds the tree of the listed paths under `query_root`. Paths are
/// `/`-separated; `query_root` and `files` are absolute, or all relative
/// to one place.
pub fn build_tree_from_git(query_root: &str, files: &Vec<String>) -> (r: Result<
    TreeNode,
    CodicatError,
>)
    ensures
        r is Ok <==> has_relevant(query_root@, views(files@)),
        r matches Ok(t) ==> t@ == tree_spec(query_root@, views(files@)) && is_wf(t@),
        r matches Ok(t) ==> forall|p: Seq<Seq<char>>|
            #[trigger] relevant_paths(query_root@, views(files@), files@.len() as int).contains(p)
                && unshadowed(query_root@, views(files@), p) ==> visible(t@, p),
        r matches Err(e) ==> (e matches CodicatError::NoTrackedFilesUnderPath { path } && path@
            == query_root@),
{
    let ghost ts = views(files@);
    let ghost root = query_root@;
    let root_comps = path_components(query_root);
    let mut sorted: Vec<Vec<String>> = Vec::new();
    let mut any = false;
    let mut i: usize = 0;
    assert(path_views(sorted@).to_set() =~= relevant_paths(root, ts, 0));
    while i < files.len()
        invariant
            ts == views(files@),
            root == query_root@,
            views(root_comps@) == components(root),
            i <= files@.len(),
            strictly_sorted(path_views(sorted@)),
            path_views(sorted@).to_set() == relevant_paths(root, ts, i as int),
            forall|p: Seq<Seq<char>>|
                path_views(sorted@).to_set().contains(p) ==> #[trigger] all_segments(p),
            any == exists|k: int| 0 <= k < i && is_relevant(root, #[trigger] ts[k]),
        decreases files@.len() - i,
    {
        let fc = path_components(files[i].as_str());
        match relative_components(&root_comps, &fc) {
            Some(rel) => {
                let ghost rv = views(rel@);
                assert(is_relevant(root, ts[i as int]));
                assert(rel_of(root, ts[i as int]) == rv);
                assert(all_segments(rv)) by {
                    assert forall|m: int| 0 <= m < rv.len() implies is_segment(#[trigger] rv[m]) by {
                        assert(rv[m] == views(fc@)[m + root_comps@.len()]);
                        assert(fc@[m + root_comps@.len()]@ == views(fc@)[m + root_comps@.len()]);
                    }
                }
                any = true;
                if rel.len() > 0 {
                    sorted_insert(&mut sorted, rel);
                    assert(path_views(sorted@).to_set() =~= relevant_paths(root, ts, i + 1));
                } else {
                    assert(path_views(sorted@).to_set() =~= relevant_paths(root, ts, i + 1));
                }
            },
            None => {
                assert(!is_relevant(root, ts[i as int]));
                assert(path_views(sorted@).to_set() =~= relevant_paths(root, ts, i + 1));
            },
        }
        i = i + 1;
    }
    if !any {
        return Err(CodicatError::NoTrackedFilesUnderPath { path: String::from_str(query_root) });
    }
    let name = if root_comps.len() > 0 {
        root_comps[root_comps.len() - 1].clone()
    } else {
        String::from_str(".")
    };
    assert(name@ == root_name(root));
    let ghost all = path_views(sorted@);
    let ghost start = leaf(name@, false);
    let mut node = TreeNode::new(name.as_str(), false);
    let mut k: usize = 0;
    assert(all.subrange(0, 0) =~= Seq::<Seq<Seq<char>>>::empty());
    while k < sorted.len()
        invariant
            all == path_views(sorted@),
            forall|p: Seq<Seq<char>>| all.to_set().contains(p) ==> #[trigger] all_segments(p),
            k <= sorted@.len(),
            node@ == build_spec(start, all.subrange(0, k as int)),
            is_wf(node@),
        decreases sorted@.len() - k,
    {
        proof {
            assert(all.to_set().contains(all[k as int]));
            assert(all[k as int] == views(sorted@[k as int]@));
            assert(views(sorted@[k as int]@).skip(0) =~= all[k as int]);
            assert(all_segments(all[k as int]));
            assert forall|m: int| 0 <= m < sorted@[k as int]@.len() implies is_segment(
                #[trigger] sorted@[k as int]@[m]@,
            ) by {
                assert(all[k as int][m] == sorted@[k as int]@[m]@);
                assert(is_segment(all[k as int][m]));
            }
        }
        insert_path(&mut node, &sorted[k], 0);
        proof {
            assert(all.subrange(0, k + 1).drop_last() =~= all.subrange(0, k as int));
        }
        k = k + 1;
    }
    proof {
        assert(all.subrange(0, all.len() as int) =~= all);
        lemma_canonical(all);
        let set = relevant_paths(root, ts, ts.len() as int);
        assert forall|p: Seq<Seq<char>>|
            #[trigger] set.contains(p) && unshadowed(root, ts, p) implies visible(node@, p) by {
            assert(all.to_set().contains(p));
            assert forall|k: int| 0 <= k < all.len() implies #[trigger] all_segments(all[k]) by {
                assert(all.to_set().contains(all[k]));
            }
            assert forall|k: int| 0 <= k < all.len() implies !is_proper_prefix(
                #[trigger] all[k],
                p,
            ) by {
                assert(set.contains(all[k]));
            }
            assert(p.len() > 0);
            lemma_build_visible(start, all, p);
        }
    }
    Ok(node)
}

/// Prints the children of `node`, each line after `prefix`, and below each
/// child that is not a file its own children.
fn print_tree_children(node: &TreeNode, prefix: &str, out: &mut String)
    ensures
        final(out)@ == old(out)@ + join_lines(lines_from(node@.children, 0, prefix@)),
    decreases node,
{
    let ghost cs = node@.children;
    proof {
        node.lemma_view();
    }
    let n = node.children.len();
    let mut i: usize = 0;
    while i < n
        invariant
            cs == node@.children,
            n == node.children@.len() == cs.len(),
            forall|j: int| 0 <= j < n ==> #[trigger] cs[j] == node.children@[j]@,
            i <= n,
            old(out)@ + join_lines(lines_from(cs, 0, prefix@)) == out@ + join_lines(
                lines_from(cs, i as int, prefix@),
            ),
        decreases n - i,
    {
        let child = &node.children[i];
        let last = i == n - 1;
        let ghost c = cs[i as int];
        let ghost line = prefix@ + connector(last) + c.name;
        let ghost sub = if c.is_file {
            Seq::<Seq<char>>::empty()
        } else {
            lines_from(c.children, 0, prefix@ + indent(last))
        };
        let ghost rest = lines_from(cs, i + 1, prefix@);
        let ghost out0 = out@;
        proof {
            child.lemma_view();
            assert(lines_from(cs, i as int, prefix@) == seq![line] + sub + rest);
            lemma_join_concat(seq![line] + sub, rest);
            lemma_join_concat(seq![line], sub);
            lemma_join_one(line);
            assert(decreases_to!(node.children => node.children@[i as int]));
        }
        out.append(prefix);
        if last {
            out.append("\u{2514}\u{2500}\u{2500} ");
        } else {
            out.append("\u{251c}\u{2500}\u{2500} ");
        }
        out.append(child.name.as_str());
        out.append("\n");
        assert(out@ =~= out0 + join_lines(seq![line]));
        if !child.is_file {
            let next = if last {
                String::from_str(prefix).concat("  ")
            } else {
                String::from_str(prefix).concat("\u{2502} ")
            };
            print_tree_children(child, next.as_str(), out);
        } else {
            assert(join_lines(sub) =~= Seq::<char>::empty());
        }
        assert(out@ =~= out0 + join_lines(seq![line] + sub));
        i = i + 1;
    }
}

/// Prints the tree rooted at `node`: its bare name, then its descendants.
fn print_tree_root(node: &TreeNode, out: &mut String)
    ensures
        final(out)@ == old(out)@ + render_text(node@),
{
    proof {
        node.lemma_view();
        reveal_strlit("");
    }
    let ghost out0 = out@;
    out.append(node.name.as_str());
    out.append("\n");
    print_tree_children(node, "", out);
    proof {
        let ls = lines_from(node@.children, 0, Seq::empty());
        lemma_join_concat(seq![node@.name], ls);
        lemma_join_one(node@.name);
        assert(""@ =~= Seq::<char>::empty());
        assert(out@ =~= out0 + render_text(node@));
    }
}

/// Appends to `out` the tree view of the listed paths under `query_root`;
/// fails, leaving `out` as it was, where none lies there.
pub fn tree_view_from_git(query_root: &str, files: &Vec<String>, out: &mut String) -> (r: Result<
    (),
    CodicatError,
>)
    ensures
        r is Ok <==> tree_view_text(query_root@, views(files@)) is Some,
        r is Ok ==> final(out)@ == old(out)@ + tree_view_text(
            query_root@,
            views(files@),
        )->Some_0,
        r matches Err(e) ==> final(out)@ == old(out)@ && (
        e matches CodicatError::NoTrackedFilesUnderPath { path } && path@ == query_root@),
{
    let tree = build_tree_from_git(query_root, files)?;
    print_tree_root(&tree, out);
    Ok(())
}

/// `a` is a leading part of `b`, shorter than `b`.
pub open spec fn is_proper_prefix(a: Seq<Seq<char>>, b: Seq<Seq<char>>) -> bool {
    a.len() < b.len() && b.subrange(0, a.len() as int) == a
}

/// The path `q` shows in the rendering below `n`: each segment names a child
/// of the node before it, and no node on the way but the last is a file.
pub open spec fn visible(n: Node, q: Seq<Seq<char>>) -> bool
    decreases q.len(),
{
    q.len() > 0 && exists|j: int|
        0 <= j < n.children.len() && (#[trigger] n.children[j]).name == q[0] && (q.len() == 1 || (
        !n.children[j].is_file && visible(n.children[j], q.drop_first())))
}

/// No node on the way to `p` below `n`, before its last segment, is a file.
pub open spec fn clear(n: Node, p: Seq<Seq<char>>) -> bool
    decreases p.len(),
{
    p.len() <= 1 || forall|j: int|
        0 <= j < n.children.len() && (#[trigger] n.children[j]).name == p[0] ==> (
        !n.children[j].is_file && clear(n.children[j], p.drop_first()))
}

proof fn lemma_prefix_step(a: Seq<Seq<char>>, b: Seq<Seq<char>>)
    requires
        a.len() > 0,
        b.len() > 0,
        a[0] == b[0],
        is_proper_prefix(a.drop_first(), b.drop_first()),
    ensures
        is_proper_prefix(a, b),
{
    assert forall|i: int| 0 <= i < a.len() implies b.subrange(0, a.len() as int)[i] == a[i] by {
        if i > 0 {
            assert(b.drop_first().subrange(0, a.drop_first().len() as int)[i - 1] == a.drop_first()[i
                - 1]);
        }
    }
    assert(b.subrange(0, a.len() as int) =~= a);
}

proof fn lemma_insert_keeps_root(n: Node, p: Seq<Seq<char>>)
    ensures
        insert_spec(n, p).name == n.name,
        insert_spec(n, p).is_file == n.is_file,
    decreases p.len(),
{
}

/// In sorted children, the scan for a child's own name stops at that child.
proof fn lemma_scan_finds(cs: Seq<Node>, j: int)
    requires
        0 <= j < cs.len(),
        forall|a: int, b: int|
            0 <= a < b < cs.len() ==> chars_lt(#[trigger] cs[a].name, #[trigger] cs[b].name),
    ensures
        scan(cs, cs[j].name, 0) == j,
{
    let x = cs[j].name;
    lemma_scan(cs, x, 0);
    let s = scan(cs, x, 0);
    lemma_chars_lt_irreflexive(x);
    if s > j {
        assert(chars_lt(cs[j].name, x));
    }
    if s < j {
        assert(chars_lt(cs[s].name, cs[j].name));
    }
}

/// Adding `p` keeps every visible path visible, unless `p` ends on the way
/// to it.
proof fn lemma_insert_keeps_visible(n: Node, p: Seq<Seq<char>>, q: Seq<Seq<char>>)
    requires
        is_wf(n),
        visible(n, q),
        !is_proper_prefix(p, q),
    ensures
        visible(insert_spec(n, p), q),
    decreases p.len(),
{
    if p.len() > 0 {
        lemma_wf_elim(n);
        let cs = n.children;
        let j = choose|j: int|
            0 <= j < cs.len() && (#[trigger] cs[j]).name == q[0] && (q.len() == 1 || (
            !cs[j].is_file && visible(cs[j], q.drop_first())));
        let jj = scan(cs, p[0], 0);
        let last = p.len() == 1;
        let m = insert_spec(n, p);
        lemma_scan(cs, p[0], 0);
        if p[0] == q[0] {
            lemma_scan_finds(cs, j);
            let c = cs[j];
            let c1 = Node { is_file: c.is_file || last, ..c };
            let c2 = insert_spec(c1, p.drop_first());
            lemma_insert_keeps_root(c1, p.drop_first());
            assert(m.children[j] == c2);
            if q.len() > 1 {
                if last {
                    assert(q.subrange(0, 1) =~= p);
                }
                assert(is_wf(c1));
                assert(!is_proper_prefix(p.drop_first(), q.drop_first())) by {
                    if is_proper_prefix(p.drop_first(), q.drop_first()) {
                        lemma_prefix_step(p, q);
                    }
                }
                lemma_insert_keeps_visible(c1, p.drop_first(), q.drop_first());
                assert(visible(c2, q.drop_first()));
            }
            assert(m.children[j].name == q[0]);
        } else if jj < cs.len() && cs[jj].name == p[0] {
            let c = cs[jj];
            let c1 = Node { is_file: c.is_file || last, ..c };
            let c2 = insert_spec(c1, p.drop_first());
            assert(jj != j);
            assert(m.children[j] == cs[j]);
        } else {
            let c2 = insert_spec(leaf(p[0], last), p.drop_first());
            if jj <= j {
                assert(m.children[j + 1] == cs[j]);
            } else {
                assert(m.children[j] == cs[j]);
            }
        }
    }
}

/// Adding `p` where nothing on the way to it is a file makes it visible.
proof fn lemma_insert_visible(n: Node, p: Seq<Seq<char>>)
    requires
        is_wf(n),
        clear(n, p),
        p.len() > 0,
    ensures
        visible(insert_spec(n, p), p),
    decreases p.len(),
{
    lemma_wf_elim(n);
    let cs = n.children;
    let jj = scan(cs, p[0], 0);
    let last = p.len() == 1;
    let m = insert_spec(n, p);
    lemma_scan(cs, p[0], 0);
    if jj < cs.len() && cs[jj].name == p[0] {
        let c = cs[jj];
        let c1 = Node { is_file: c.is_file || last, ..c };
        let c2 = insert_spec(c1, p.drop_first());
        lemma_insert_keeps_root(c1, p.drop_first());
        assert(m.children[jj] == c2);
        if !last {
            assert(!c.is_file && clear(c, p.drop_first()));
            assert(clear(c1, p.drop_first()));
            assert(is_wf(c1));
            lemma_insert_visible(c1, p.drop_first());
        }
    } else {
        let c1 = leaf(p[0], last);
        let c2 = insert_spec(c1, p.drop_first());
        lemma_insert_keeps_root(c1, p.drop_first());
        assert(m.children[jj] == c2);
        if !last {
            assert(is_wf(c1));
            assert(clear(c1, p.drop_first()));
            lemma_insert_visible(c1, p.drop_first());
        }
    }
}

/// Adding `q` keeps the way to `p` free of files, unless `q` ends on it.
proof fn lemma_insert_keeps_clear(n: Node, q: Seq<Seq<char>>, p: Seq<Seq<char>>)
    requires
        clear(n, p),
        !is_proper_prefix(q, p),
    ensures
        clear(insert_spec(n, q), p),
    decreases q.len(),
{
    if q.len() > 0 && p.len() > 1 {
        let cs = n.children;
        let jj = scan(cs, q[0], 0);
        let last = q.len() == 1;
        let m = insert_spec(n, q);
        lemma_scan(cs, q[0], 0);
        let existing = jj < cs.len() && cs[jj].name == q[0];
        let c1 = if existing {
            Node { is_file: cs[jj].is_file || last, ..cs[jj] }
        } else {
            leaf(q[0], last)
        };
        let c2 = insert_spec(c1, q.drop_first());
        lemma_insert_keeps_root(c1, q.drop_first());
        if q[0] == p[0] {
            if last {
                assert(p.subrange(0, 1) =~= q);
            }
            assert(!is_proper_prefix(q.drop_first(), p.drop_first())) by {
                if is_proper_prefix(q.drop_first(), p.drop_first()) {
                    lemma_prefix_step(q, p);
                }
            }
            if existing {
                assert(cs[jj].name == p[0]);
                assert(clear(c1, p.drop_first()));
            }
            lemma_insert_keeps_clear(c1, q.drop_first(), p.drop_first());
        }
        assert forall|k: int|
            0 <= k < m.children.len() && (#[trigger] m.children[k]).name == p[0] implies (
            !m.children[k].is_file && clear(m.children[k], p.drop_first())) by {
            if existing {
                if k != jj {
                    assert(m.children[k] == cs[k]);
                }
            } else if k < jj {
                assert(m.children[k] == cs[k]);
            } else if k > jj {
                assert(m.children[k] == cs[k - 1]);
            }
        }
    }
}

proof fn lemma_build_wf(start: Node, c: Seq<Seq<Seq<char>>>)
    requires
        is_wf(start),
        forall|k: int| 0 <= k < c.len() ==> #[trigger] all_segments(c[k]),
    ensures
        is_wf(build_spec(start, c)),
        build_spec(start, c).name == start.name,
        build_spec(start, c).is_file == start.is_file,
    decreases c.len(),
{
    if c.len() > 0 {
        let prev = c.drop_last();
        assert forall|k: int| 0 <= k < prev.len() implies #[trigger] all_segments(prev[k]) by {
            assert(prev[k] == c[k]);
        }
        lemma_build_wf(start, prev);
        assert(all_segments(c[c.len() - 1]));
        lemma_insert_wf(build_spec(start, prev), c.last());
        lemma_insert_keeps_root(build_spec(start, prev), c.last());
    }
}

/// Built from a node without children, a path of `c` that no path of `c`
/// leads up to is visible.
proof fn lemma_build_visible(start: Node, c: Seq<Seq<Seq<char>>>, p: Seq<Seq<char>>)
    requires
        is_wf(start),
        start.children.len() == 0,
        forall|k: int| 0 <= k < c.len() ==> #[trigger] all_segments(c[k]),
        forall|k: int| 0 <= k < c.len() ==> !is_proper_prefix(#[trigger] c[k], p),
        p.len() > 0,
    ensures
        clear(build_spec(start, c), p),
        c.contains(p) ==> visible(build_spec(start, c), p),
    decreases c.len(),
{
    if c.len() == 0 {
        assert(clear(start, p));
    } else {
        let prev = c.drop_last();
        assert forall|k: int| 0 <= k < prev.len() implies #[trigger] all_segments(prev[k]) by {
            assert(prev[k] == c[k]);
        }
        assert forall|k: int| 0 <= k < prev.len() implies !is_proper_prefix(#[trigger] prev[k], p) by {
            assert(prev[k] == c[k]);
        }
        lemma_build_visible(start, prev, p);
        lemma_build_wf(start, prev);
        let n = build_spec(start, prev);
        let q = c.last();
        assert(!is_proper_prefix(c[c.len() - 1], p));
        lemma_insert_keeps_clear(n, q, p);
        if c.contains(p) {
            if q == p {
                lemma_insert_visible(n, p);
            } else {
                let k = choose|k: int| 0 <= k < c.len() && c[k] == p;
                assert(prev[k] == p);
                assert(prev.contains(p));
                assert(!is_proper_prefix(q, p));
                lemma_insert_keeps_visible(n, q, p);
            }
        }
    }
}

/// The lines that child `j` of `cs` brings: its own, then, unless it is a
/// file, those of its children.
pub open spec fn entry_lines(cs: Seq<Node>, j: int, prefix: Seq<char>) -> Seq<Seq<char>> {
    let c = cs[j];
    let last = j == cs.len() - 1;
    seq![prefix + connector(last) + c.name] + (if c.is_file {
        Seq::empty()
    } else {
        lines_from(c.children, 0, prefix + indent(last))
    })
}

proof fn lemma_entry_in_lines(cs: Seq<Node>, i: int, j: int, prefix: Seq<char>, x: Seq<char>)
    requires
        0 <= i <= j < cs.len(),
        entry_lines(cs, j, prefix).contains(x),
    ensures
        lines_from(cs, i, prefix).contains(x),
    decreases j - i,
{
    let here = entry_lines(cs, i, prefix);
    let rest = lines_from(cs, i + 1, prefix);
    assert(lines_from(cs, i, prefix) == here + rest);
    if i == j {
        let k = choose|k: int| 0 <= k < here.len() && here[k] == x;
        assert((here + rest)[k] == x);
    } else {
        lemma_entry_in_lines(cs, i + 1, j, prefix, x);
        let k = choose|k: int| 0 <= k < rest.len() && rest[k] == x;
        assert((here + rest)[here.len() + k] == x);
    }
}

/// `u` is made of two-column units, each a bar and a space or two spaces.
pub open spec fn indent_units(u: Seq<char>) -> bool
    decreases u.len(),
{
    u.len() == 0 || (u.len() >= 2 && (u.subrange(0, 2) == indent(true) || u.subrange(0, 2)
        == indent(false)) && indent_units(u.skip(2)))
}

/// A visible path of `k` segments shows as a line made of `prefix`, then
/// `k - 1` two-column units, then a connector and its last segment.
pub proof fn lemma_visible_line(n: Node, q: Seq<Seq<char>>, prefix: Seq<char>)
    requires
        visible(n, q),
    ensures
        exists|u: Seq<char>, last: bool|
            indent_units(u) && u.len() == 2 * (q.len() - 1) && #[trigger] lines_from(
                n.children,
                0,
                prefix,
            ).contains(prefix + u + connector(last) + q.last()),
    decreases q.len(),
{
    let cs = n.children;
    let j = choose|j: int|
        0 <= j < cs.len() && (#[trigger] cs[j]).name == q[0] && (q.len() == 1 || (!cs[j].is_file
            && visible(cs[j], q.drop_first())));
    let last = j == cs.len() - 1;
    let entry = entry_lines(cs, j, prefix);
    if q.len() == 1 {
        let u = Seq::<char>::empty();
        let line = prefix + u + connector(last) + q.last();
        assert(prefix + u =~= prefix);
        assert(entry[0] == line);
        lemma_entry_in_lines(cs, 0, j, prefix, line);
        assert(lines_from(cs, 0, prefix).contains(line));
        assert(indent_units(u));
    } else {
        let c = cs[j];
        let inner = prefix + indent(last);
        reveal_strlit("  ");
        reveal_strlit("\u{2502} ");
        assert(indent(last).len() == 2);
        lemma_visible_line(c, q.drop_first(), inner);
        let (u1, b) = choose|u1: Seq<char>, b: bool|
            indent_units(u1) && u1.len() == 2 * (q.drop_first().len() - 1) && #[trigger] lines_from(
                c.children,
                0,
                inner,
            ).contains(inner + u1 + connector(b) + q.drop_first().last());
        let u = indent(last) + u1;
        assert(u.subrange(0, 2) =~= indent(last));
        assert(u.skip(2) =~= u1);
        assert(indent_units(u));
        assert(inner + u1 =~= prefix + u);
        let line = prefix + u + connector(b) + q.last();
        let sub = lines_from(c.children, 0, inner);
        let k = choose|k: int| 0 <= k < sub.len() && sub[k] == line;
        assert(entry[1 + k] == line);
        lemma_entry_in_lines(cs, 0, j, prefix, line);
        assert(lines_from(cs, 0, prefix).contains(line));
    }
}

/// The leaf depth of a rendered tree: a visible path of `k` segments shows
/// as a line that starts with `k - 1` two-column units (a bar and a space,
/// or two spaces), that is, at nesting depth `k - 1`, then a connector and
/// its last segment.
pub proof fn lemma_leaf_depth(n: Node, q: Seq<Seq<char>>)
    requires
        visible(n, q),
    ensures
        exists|u: Seq<char>, last: bool|
            indent_units(u) && u.len() == 2 * (q.len() - 1) && #[trigger] tree_lines(n).contains(
                u + connector(last) + q.last(),
            ),
{
    lemma_visible_line(n, q, Seq::empty());
    let (u, b) = choose|u: Seq<char>, b: bool|
        indent_units(u) && u.len() == 2 * (q.len() - 1) && #[trigger] lines_from(
            n.children,
            0,
            Seq::empty(),
        ).contains(Seq::empty() + u + connector(b) + q.last());
    assert(Seq::<char>::empty() + u =~= u);
    let ls = lines_from(n.children, 0, Seq::empty());
    let line = u + connector(b) + q.last();
    let k = choose|k: int| 0 <= k < ls.len() && ls[k] == line;
    assert(tree_lines(n)[1 + k] == line);
    assert(tree_lines(n).contains(line));
}

proof fn lemma_relevant_sorted(root: Seq<char>, files: Seq<Seq<char>>, n: int)
    requires
        0 <= n <= files.len(),
    ensures
        exists|c: Seq<Seq<Seq<char>>>|
            strictly_sorted(c) && c.to_set() == relevant_paths(root, files, n),
    decreases n,
{
    if n == 0 {
        let c = Seq::<Seq<Seq<char>>>::empty();
        assert(c.to_set() =~= relevant_paths(root, files, 0));
    } else {
        lemma_relevant_sorted(root, files, n - 1);
        let c = choose|c: Seq<Seq<Seq<char>>>|
            strictly_sorted(c) && c.to_set() == relevant_paths(root, files, n - 1);
        let x = files[n - 1];
        let prev = relevant_paths(root, files, n - 1);
        let now = relevant_paths(root, files, n);
        if is_relevant(root, x) && rel_of(root, x).len() > 0 {
            lemma_sorted_insert_exists(c, rel_of(root, x));
            let d = choose|d: Seq<Seq<Seq<char>>>|
                strictly_sorted(d) && d.to_set() == c.to_set().insert(rel_of(root, x));
            assert forall|p: Seq<Seq<char>>| now.contains(p) == prev.insert(rel_of(root, x)).contains(
                p,
            ) by {
                if now.contains(p) {
                    let i = choose|i: int|
                        0 <= i < n && is_relevant(root, #[trigger] files[i]) && rel_of(
                            root,
                            files[i],
                        ) == p && p.len() > 0;
                    if i < n - 1 {
                        assert(prev.contains(p));
                    }
                }
                if prev.contains(p) {
                    let i = choose|i: int|
                        0 <= i < n - 1 && is_relevant(root, #[trigger] files[i]) && rel_of(
                            root,
                            files[i],
                        ) == p && p.len() > 0;
                    assert(now.contains(p));
                }
            }
            assert(d.to_set() =~= now);
        } else {
            assert forall|p: Seq<Seq<char>>| now.contains(p) == prev.contains(p) by {
                if now.contains(p) {
                    let i = choose|i: int|
                        0 <= i < n && is_relevant(root, #[trigger] files[i]) && rel_of(
                            root,
                            files[i],
                        ) == p && p.len() > 0;
                    assert(i < n - 1);
                    assert(prev.contains(p));
                }
                if prev.contains(p) {
                    let i = choose|i: int|
                        0 <= i < n - 1 && is_relevant(root, #[trigger] files[i]) && rel_of(
                            root,
                            files[i],
                        ) == p && p.len() > 0;
                    assert(now.contains(p));
                }
            }
            assert(c.to_set() =~= now);
        }
    }
}

/// A listed path whose part below the root has `k` segments, and none of
/// whose leading parts is itself listed, appears in the rendered tree as a
/// leaf at nesting depth `k - 1`: its line starts with `k - 1` two-column
/// units (a bar and a space, or two spaces), then a connector and its last
/// segment.
pub proof fn lemma_listed_leaf_depth(root: Seq<char>, files: Seq<Seq<char>>, p: Seq<Seq<char>>)
    requires
        relevant_paths(root, files, files.len() as int).contains(p),
        unshadowed(root, files, p),
    ensures
        exists|u: Seq<char>, last: bool|
            indent_units(u) && u.len() == 2 * (p.len() - 1) && #[trigger] tree_lines(
                tree_spec(root, files),
            ).contains(u + connector(last) + p.last()),
{
    let s = relevant_paths(root, files, files.len() as int);
    lemma_relevant_sorted(root, files, files.len() as int);
    let c = canonical(s);
    assert(strictly_sorted(c) && c.to_set() == s);
    assert forall|k: int| 0 <= k < c.len() implies #[trigger] all_segments(c[k]) by {
        assert(c.to_set().contains(c[k]));
        let i = choose|i: int|
            0 <= i < files.len() && is_relevant(root, #[trigger] files[i]) && rel_of(root, files[i])
                == c[k] && c[k].len() > 0;
        lemma_components_are_segments(files[i]);
        let off = components(root).len() as int;
        assert forall|m: int| 0 <= m < c[k].len() implies is_segment(#[trigger] c[k][m]) by {
            assert(c[k][m] == components(files[i])[m + off]);
        }
    }
    assert forall|k: int| 0 <= k < c.len() implies !is_proper_prefix(#[trigger] c[k], p) by {
        assert(c.to_set().contains(c[k]));
    }
    assert(c.to_set().contains(p));
    let start = leaf(root_name(root), false);
    assert(is_wf(start));
    lemma_build_visible(start, c, p);
    lemma_leaf_depth(tree_spec(root, files), p);
}

/// The tree view depends on the set of listed paths only: listing the same
/// paths in another order, or with repeats in other places, prints the same
/// text, and fails alike.
pub proof fn lemma_tree_view_order_independent(
    root: Seq<char>,
    a: Seq<Seq<char>>,
    b: Seq<Seq<char>>,
)
    requires
        a.to_multiset() == b.to_multiset(),
    ensures
        tree_view_text(root, a) == tree_view_text(root, b),
{
    broadcast use vstd::seq_lib::group_to_multiset_ensures;

    assert forall|x: Seq<char>| a.contains(x) <==> b.contains(x) by {
        assert(a.contains(x) <==> a.to_multiset().count(x) > 0);
        assert(b.contains(x) <==> b.to_multiset().count(x) > 0);
    }
    if has_relevant(root, a) {
        let i = choose|i: int| 0 <= i < a.len() && is_relevant(root, #[trigger] a[i]);
        assert(b.contains(a[i]));
        let j = choose|j: int| 0 <= j < b.len() && b[j] == a[i];
        assert(is_relevant(root, b[j]));
    }
    if has_relevant(root, b) {
        let i = choose|i: int| 0 <= i < b.len() && is_relevant(root, #[trigger] b[i]);
        assert(a.contains(b[i]));
        let j = choose|j: int| 0 <= j < a.len() && a[j] == b[i];
        assert(is_relevant(root, a[j]));
    }
    let sa = relevant_paths(root, a, a.len() as int);
    let sb = relevant_paths(root, b, b.len() as int);
    assert forall|p: Seq<Seq<char>>| sa.contains(p) <==> sb.contains(p) by {
        if sa.contains(p) {
            let i = choose|i: int|
                0 <= i < a.len() && is_relevant(root, #[trigger] a[i]) && rel_of(root, a[i]) == p
                    && p.len() > 0;
            assert(b.contains(a[i]));
            let j = choose|j: int| 0 <= j < b.len() && b[j] == a[i];
            assert(is_relevant(root, b[j]));
        }
        if sb.contains(p) {
            let i = choose|i: int|
                0 <= i < b.len() && is_relevant(root, #[trigger] b[i]) && rel_of(root, b[i]) == p
                    && p.len() > 0;
            assert(a.contains(b[i]));
            let j = choose|j: int| 0 <= j < a.len() && a[j] == b[i];
            assert(is_relevant(root, a[j]));
        }
    }
    assert(sa =~= sb);
}

} // verus!
