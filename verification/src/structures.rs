use vstd::prelude::*;

use crate::errors::AppError;
use crate::filesystem::{comp_views, CompModel, PathComponent};

verus! {

/// A single path segment, as the directory reader hands it over.
pub struct FileNode {
    pub name: String,
}

impl View for FileNode {
    type V = Seq<char>;

    open spec fn view(&self) -> Seq<char> {
        self.name@
    }
}

/// One directory. `subnodes` is `None` while the directory's listing has not
/// been loaded; once loaded it holds the children as indices into the node
/// arena of the owning `Tree`, in the order the reader returned them.
/// `parent` is the index of the enclosing directory, absent for the root.
pub struct TreeNode {
    pub file_node: FileNode,
    pub parent: Option<usize>,
    pub subnodes: Option<Vec<usize>>,
}

/// The ghost shape of one node: its name, its parent and, when loaded, its
/// children.
#[verifier::ext_equal]
pub struct NodeModel {
    pub name: Seq<char>,
    pub parent: Option<int>,
    pub subnodes: Option<Seq<int>>,
}

impl View for TreeNode {
    type V = NodeModel;

    open spec fn view(&self) -> NodeModel {
        NodeModel {
            name: self.file_node.name@,
            parent: match self.parent {
                Some(p) => Some(p as int),
                None => None,
            },
            subnodes: match self.subnodes {
                Some(v) => Some(v@.map_values(|c: usize| c as int)),
                None => None,
            },
        }
    }
}

/// Whether node `i` currently has a loaded children snapshot.
pub open spec fn loaded(t: Seq<NodeModel>, i: int) -> bool {
    t[i].subnodes is Some
}

/// The child indices of a loaded node `i`.
pub open spec fn kids(t: Seq<NodeModel>, i: int) -> Seq<int> {
    t[i].subnodes->0
}

/// Well-formedness of one arena slot: the root (and only the root) has no
/// parent; parent links point strictly downwards in index order; a loaded
/// node's children are in-range, strictly increasing, come after the node
/// itself, and each points back to it.
pub open spec fn wf_node(t: Seq<NodeModel>, i: int) -> bool {
    &&& (i == 0 <==> t[i].parent is None)
    &&& (t[i].parent is Some ==> 0 <= t[i].parent->0 < i)
    &&& (loaded(t, i) ==> {
        let cs = kids(t, i);
        &&& (forall|k: int|
            0 <= k < cs.len() ==> i < #[trigger] cs[k] < t.len() && t[cs[k]].parent == Some(i))
        &&& (forall|k1: int, k2: int|
            0 <= k1 < k2 < cs.len() ==> #[trigger] cs[k1] < #[trigger] cs[k2])
    })
}

/// Well-formedness of the whole arena: non-empty, rooted at index 0.
pub open spec fn wf(t: Seq<NodeModel>) -> bool {
    &&& t.len() >= 1
    &&& forall|i: int| 0 <= i < t.len() ==> #[trigger] wf_node(t, i)
}

/// The arena after node `i` takes a children snapshot named `names`: the
/// fresh children are appended at the end, each unloaded and pointing back at
/// `i`, and `i`'s child list becomes exactly their indices, in listing order.
pub open spec fn load_model(t: Seq<NodeModel>, i: int, names: Seq<Seq<char>>) -> Seq<NodeModel> {
    let fresh = Seq::new(
        names.len(),
        |k: int| NodeModel { name: names[k], parent: Some(i), subnodes: None },
    );
    let node = NodeModel {
        name: t[i].name,
        parent: t[i].parent,
        subnodes: Some(Seq::new(names.len(), |k: int| t.len() + k)),
    };
    t.update(i, node) + fresh
}

/// The arena after node `i` drops its children snapshot: only `i`'s
/// `subnodes` changes, to `None`; orphaned slots stay behind unreferenced.
pub open spec fn unload_model(t: Seq<NodeModel>, i: int) -> Seq<NodeModel> {
    t.update(i, NodeModel { name: t[i].name, parent: t[i].parent, subnodes: None })
}

/// The names of a loaded node's children, in order.
pub open spec fn kid_names(t: Seq<NodeModel>, i: int) -> Seq<Seq<char>> {
    kids(t, i).map_values(|c: int| t[c].name)
}

/// Appends one segment to a path string: a `/` separator is inserted unless
/// the path so far is empty or already ends with one.
pub open spec fn push_seg(p: Seq<char>, name: Seq<char>) -> Seq<char> {
    if p.len() == 0 || p.last() == '/' {
        p + name
    } else {
        p.push('/') + name
    }
}

/// The absolute path of node `i`: the names along its parent chain, root
/// first, joined by `push_seg`.
pub open spec fn path_model(t: Seq<NodeModel>, i: int) -> Seq<char>
    decreases i,
{
    if t[i].parent is Some && 0 <= t[i].parent->0 < i {
        push_seg(path_model(t, t[i].parent->0), t[i].name)
    } else {
        t[i].name
    }
}

/// The first of the children `cs` (from position `k` on) whose name is
/// exactly `name`.
pub open spec fn first_child_named(
    t: Seq<NodeModel>,
    cs: Seq<int>,
    k: int,
    name: Seq<char>,
) -> Option<int>
    decreases cs.len() - k,
{
    if k < 0 || k >= cs.len() {
        None
    } else if t[cs[k]].name == name {
        Some(cs[k])
    } else {
        first_child_named(t, cs, k + 1, name)
    }
}

/// The outcome a resolution pass must have.
pub enum ResolveModel {
    Found(int),
    NeedLoad(int),
    NotFound,
}

/// What a resolution walk returns: starting at `cur`, it consumes one normal
/// component per step, descending to the first child carrying that name. It
/// stops at the first node on the way whose listing is not loaded yet, fails
/// on a component that no child matches (or that is not a normal segment),
/// and returns the node it stands on once the components are exhausted.
pub open spec fn resolve_model(
    t: Seq<NodeModel>,
    cur: int,
    comps: Seq<CompModel>,
    pos: int,
) -> ResolveModel
    decreases comps.len() - pos,
{
    if pos < 0 || pos >= comps.len() {
        ResolveModel::Found(cur)
    } else {
        match comps[pos] {
            CompModel::Normal(name) => if !loaded(t, cur) {
                ResolveModel::NeedLoad(cur)
            } else {
                match first_child_named(t, kids(t, cur), 0, name) {
                    Some(c) => resolve_model(t, c, comps, pos + 1),
                    None => ResolveModel::NotFound,
                }
            },
            _ => ResolveModel::NotFound,
        }
    }
}

/// A node every ancestor of which holds a loaded snapshot in which the node
/// on the chain is the first child carrying its name — as on a filesystem,
/// where sibling names are unique. Exactly the nodes that successive expands
/// can reach and whose path singles them out.
pub open spec fn canonical(t: Seq<NodeModel>, i: int) -> bool
    decreases i,
{
    if i <= 0 {
        i == 0
    } else {
        &&& t[i].parent is Some
        &&& 0 <= t[i].parent->0 < i
        &&& loaded(t, t[i].parent->0)
        &&& first_child_named(t, kids(t, t[i].parent->0), 0, t[i].name) == Some(i)
        &&& canonical(t, t[i].parent->0)
    }
}

/// The parsed components of node `i`'s path: the root separator, then one
/// normal segment per node on the chain below the root.
pub open spec fn seg_comps(t: Seq<NodeModel>, i: int) -> Seq<CompModel>
    decreases i,
{
    if i <= 0 || !(t[i].parent is Some) || !(0 <= t[i].parent->0 < i) {
        seq![CompModel::RootDir]
    } else {
        seg_comps(t, t[i].parent->0).push(CompModel::Normal(t[i].name))
    }
}

/// The path string a component sequence describes, from position `k` on:
/// one `push_seg` onto `acc` per normal segment.
pub open spec fn joined(acc: Seq<char>, comps: Seq<CompModel>, k: int) -> Seq<char>
    decreases comps.len() - k,
{
    if k < 0 || k >= comps.len() {
        acc
    } else {
        match comps[k] {
            CompModel::Normal(n) => joined(push_seg(acc, n), comps, k + 1),
            _ => joined(acc, comps, k + 1),
        }
    }
}

/// One more segment at the end of the components adds one more `push_seg`
/// at the end of the join.
proof fn lemma_joined_push(acc: Seq<char>, comps: Seq<CompModel>, k: int, n: Seq<char>)
    requires
        0 <= k <= comps.len(),
    ensures
        joined(acc, comps.push(CompModel::Normal(n)), k) == push_seg(joined(acc, comps, k), n),
    decreases comps.len() - k,
{
    let comps2 = comps.push(CompModel::Normal(n));
    if k == comps.len() {
        assert(comps2[k] == CompModel::Normal(n));
        assert(joined(push_seg(acc, n), comps2, k + 1) == push_seg(acc, n));
        assert(joined(acc, comps, k) == acc);
    } else {
        assert(comps2[k] == comps[k]);
        match comps[k] {
            CompModel::Normal(m) => {
                lemma_joined_push(push_seg(acc, m), comps, k + 1, n);
                assert(joined(acc, comps2, k) == joined(push_seg(acc, m), comps2, k + 1));
                assert(joined(acc, comps, k) == joined(push_seg(acc, m), comps, k + 1));
            },
            _ => {
                lemma_joined_push(acc, comps, k + 1, n);
                assert(joined(acc, comps2, k) == joined(acc, comps2, k + 1));
                assert(joined(acc, comps, k) == joined(acc, comps, k + 1));
            },
        }
    }
}

/// A node's path string is exactly the join of its parsed components: the
/// root's own name, then one segment per component after the root
/// separator. So the components `lemma_path_round_trip` resolves are the
/// parse of what `get_path` returns.
pub proof fn lemma_path_matches_comps(t: Seq<NodeModel>, i: int)
    requires
        wf(t),
        0 <= i < t.len(),
    ensures
        path_model(t, i) == joined(t[0].name, seg_comps(t, i), 1),
    decreases i,
{
    assert(wf_node(t, i));
    if i != 0 {
        let p = t[i].parent->0;
        lemma_path_matches_comps(t, p);
        assert(seg_comps(t, p).len() >= 1);
        lemma_joined_push(t[0].name, seg_comps(t, p), 1, t[i].name);
    }
}

/// Appending one more normal segment to components that resolve to a loaded
/// node `m` resolves to the first child of `m` carrying that name.
proof fn lemma_resolve_append(
    t: Seq<NodeModel>,
    cur: int,
    comps: Seq<CompModel>,
    pos: int,
    name: Seq<char>,
    m: int,
    c: int,
)
    requires
        0 <= pos <= comps.len(),
        resolve_model(t, cur, comps, pos) == ResolveModel::Found(m),
        loaded(t, m),
        first_child_named(t, kids(t, m), 0, name) == Some(c),
    ensures
        resolve_model(t, cur, comps.push(CompModel::Normal(name)), pos) == ResolveModel::Found(c),
    decreases comps.len() - pos,
{
    let comps2 = comps.push(CompModel::Normal(name));
    if pos == comps.len() {
        assert(cur == m);
        assert(comps2[pos] == CompModel::Normal(name));
        assert(resolve_model(t, c, comps2, pos + 1) == ResolveModel::Found(c));
    } else {
        assert(comps2[pos] == comps[pos]);
        match comps[pos] {
            CompModel::Normal(n0) => {
                assert(loaded(t, cur));
                match first_child_named(t, kids(t, cur), 0, n0) {
                    Some(ch) => {
                        lemma_resolve_append(t, ch, comps, pos + 1, name, m, c);
                    },
                    None => {
                        assert(false);
                    },
                }
            },
            _ => {
                assert(false);
            },
        }
    }
}

/// Path round-trip: a canonically reachable node resolves back to itself
/// from the parsed components of its own path. The components start with the
/// root separator; the walk after it starts at the root.
pub proof fn lemma_path_round_trip(t: Seq<NodeModel>, i: int)
    requires
        wf(t),
        0 <= i < t.len(),
        canonical(t, i),
    ensures
        seg_comps(t, i).len() >= 1,
        seg_comps(t, i)[0] == CompModel::RootDir,
        resolve_model(t, 0, seg_comps(t, i), 1) == ResolveModel::Found(i),
    decreases i,
{
    if i == 0 {
        assert(wf_node(t, 0));
        assert(seg_comps(t, 0) == seq![CompModel::RootDir]);
        assert(resolve_model(t, 0, seg_comps(t, 0), 1) == ResolveModel::Found(0));
    } else {
        let p = t[i].parent->0;
        lemma_path_round_trip(t, p);
        lemma_resolve_append(t, 0, seg_comps(t, p), 1, t[i].name, p, i);
        assert(seg_comps(t, i) == seg_comps(t, p).push(CompModel::Normal(t[i].name)));
        assert(seg_comps(t, i)[0] == seg_comps(t, p)[0]);
    }
}

/// ASCII-lowercased code point, for the case-insensitive first-letter match.
pub open spec fn lower(c: char) -> int {
    if 65 <= c as int <= 90 {
        c as int + 32
    } else {
        c as int
    }
}

/// Whether `name` starts with `letter`, compared case-insensitively on the
/// first character.
pub open spec fn starts_with_letter(name: Seq<char>, letter: char) -> bool {
    name.len() > 0 && lower(name[0]) == lower(letter)
}

/// Scans sibling positions cyclically: from the position after `pos`, the
/// next `steps` positions (wrapping at the end of `cs`) are tried in order;
/// the first sibling whose name starts with `letter` wins.
pub open spec fn scan_cyclic(
    t: Seq<NodeModel>,
    cs: Seq<int>,
    pos: int,
    letter: char,
    steps: int,
) -> Option<int>
    decreases steps,
{
    if steps <= 0 {
        None
    } else {
        let np = if pos + 1 >= cs.len() {
            0
        } else {
            pos + 1
        };
        if starts_with_letter(t[cs[np]].name, letter) {
            Some(cs[np])
        } else {
            scan_cyclic(t, cs, np, letter, steps - 1)
        }
    }
}

/// Position of child `i` in `cs`, from `k` on.
pub open spec fn index_of_kid(cs: Seq<int>, k: int, i: int) -> Option<int>
    decreases cs.len() - k,
{
    if k < 0 || k >= cs.len() {
        None
    } else if cs[k] == i {
        Some(k)
    } else {
        index_of_kid(cs, k + 1, i)
    }
}

/// What `find_next` returns: the next sibling of `i`, cyclically after it
/// among its parent's loaded children, whose name starts with `letter`;
/// `None` when `i` has no parent, the parent holds no snapshot, `i` is not in
/// it, or no sibling matches.
pub open spec fn next_model(t: Seq<NodeModel>, i: int, letter: char) -> Option<int> {
    match t[i].parent {
        None => None,
        Some(p) => if !loaded(t, p) {
            None
        } else {
            let cs = kids(t, p);
            match index_of_kid(cs, 0, i) {
                None => None,
                Some(k) => scan_cyclic(t, cs, k, letter, cs.len() as int),
            }
        },
    }
}

/// How far one resolution pass got: either the target node, or the first
/// node along the path whose listing must be loaded before the walk can go
/// on.
pub enum FindProgress {
    Found(usize),
    NeedLoad(usize),
}

impl TreeNode {
    /// A fresh node standing for `file_node`: unloaded, with no parent
    /// recorded yet.
    pub fn new(file_node: FileNode) -> (r: TreeNode)
        ensures
            r@.name == file_node@,
            r@.parent is None,
            r@.subnodes is None,
    {
        TreeNode { file_node, parent: None, subnodes: None }
    }
}

/// The directory tree: an arena of nodes, rooted at index 0. Children always
/// carry a larger index than their parent, so every parent walk terminates at
/// the root.
pub struct Tree {
    pub nodes: Vec<TreeNode>,
}

impl View for Tree {
    type V = Seq<NodeModel>;

    open spec fn view(&self) -> Seq<NodeModel> {
        self.nodes@.map_values(|n: TreeNode| n@)
    }
}

impl Tree {
    /// A tree holding only an unloaded root named after `root`.
    pub fn new(root: FileNode) -> (r: Tree)
        ensures
            wf(r@),
            r@.len() == 1,
            r@[0].name == root@,
            !loaded(r@, 0),
    {
        let mut nodes: Vec<TreeNode> = Vec::new();
        nodes.push(TreeNode::new(root));
        let r = Tree { nodes };
        proof {
            assert(r@.len() == 1);
            assert(wf_node(r@, 0));
        }
        r
    }

    /// How many arena slots the tree holds (loaded or orphaned alike).
    pub fn len(&self) -> (r: usize)
        ensures
            r == self@.len(),
    {
        self.nodes.len()
    }

    /// Whether node `i` currently holds a children snapshot.
    pub fn is_loaded(&self, i: usize) -> (r: bool)
        requires
            i < self@.len(),
        ensures
            r == loaded(self@, i as int),
    {
        self.nodes[i].subnodes.is_some()
    }

    /// Takes the children snapshot for node `i` from the listing `names`: one
    /// fresh unloaded child per name, in listing order. A no-op when `i` is
    /// already loaded: a snapshot, once taken, is only discarded by `unload`,
    /// so loading twice changes nothing.
    pub fn load(&mut self, i: usize, names: &Vec<String>)
        requires
            wf(old(self)@),
            i < old(self)@.len(),
        ensures
            wf(final(self)@),
            loaded(old(self)@, i as int) ==> final(self)@ == old(self)@,
            !loaded(old(self)@, i as int) ==> final(self)@ == load_model(
                old(self)@,
                i as int,
                names.deep_view(),
            ),
            loaded(final(self)@, i as int),
    {
        if self.nodes[i].subnodes.is_some() {
            return ;
        }
        let ghost t0 = self@;
        let ghost n0 = self@.len();
        let mut idxs: Vec<usize> = Vec::new();
        let mut k: usize = 0;
        while k < names.len()
            invariant
                k <= names@.len(),
                self@.len() == n0 + k,
                n0 == t0.len(),
                forall|j: int| 0 <= j < n0 ==> self@[j] == t0[j],
                forall|j: int|
                    n0 <= j < self@.len() ==> self@[j] == (NodeModel {
                        name: names.deep_view()[j - n0],
                        parent: Some(i as int),
                        subnodes: None,
                    }),
                idxs@.len() == k,
                forall|j: int| 0 <= j < k ==> idxs@[j] == n0 + j,
            decreases names@.len() - k,
        {
            let ghost tprev = self@;
            let idx = self.nodes.len();
            let name = names[k].clone();
            let node = TreeNode { file_node: FileNode { name }, parent: Some(i), subnodes: None };
            proof {
                assert(node@ == (NodeModel {
                    name: names.deep_view()[k as int],
                    parent: Some(i as int),
                    subnodes: None,
                }));
            }
            self.nodes.push(node);
            idxs.push(idx);
            proof {
                assert(self@ =~= tprev.push(node@));
            }
            k += 1;
        }
        let ghost idview = idxs@;
        let ghost tpre = self@;
        self.nodes[i].subnodes = Some(idxs);
        proof {
            let t1 = self@;
            let ns = names.deep_view();
            let m = ns.len();
            assert(idview.map_values(|c: usize| c as int) =~= Seq::new(m, |k: int| t0.len() + k));
            assert(t1 =~= tpre.update(i as int, t1[i as int]));
            assert(t1.len() == t0.len() + m);
            assert(t1[i as int].name == t0[i as int].name);
            assert(t1[i as int].parent == t0[i as int].parent);
            assert(t1[i as int].subnodes == Some(Seq::new(m, |k: int| t0.len() + k)));
            assert(forall|j: int| 0 <= j < t0.len() && j != i ==> t1[j] == tpre[j]);
            assert(t1 =~~= load_model(t0, i as int, ns));
            assert forall|j: int| 0 <= j < t1.len() implies #[trigger] wf_node(t1, j) by {
                if j < n0 {
                    assert(wf_node(t0, j));
                }
                if j == i {
                    let cs = kids(t1, j);
                    assert(forall|m: int| 0 <= m < cs.len() ==> #[trigger] cs[m] == n0 + m);
                } else if j < n0 && loaded(t1, j) {
                    assert(kids(t1, j) == kids(t0, j));
                    assert forall|m: int| 0 <= m < kids(t1, j).len() implies j
                        < #[trigger] kids(t1, j)[m] < t1.len() && t1[kids(t1, j)[m]].parent
                        == Some(j) by {
                        assert(wf_node(t0, j));
                        assert(t0[kids(t0, j)[m]].parent == Some(j));
                    }
                    assert(wf_node(t0, j));
                }
            }
        }
    }

    /// Discards node `i`'s children snapshot, reverting it to unloaded.
    /// Never fails; nothing else in the tree changes.
    pub fn unload(&mut self, i: usize)
        requires
            wf(old(self)@),
            i < old(self)@.len(),
        ensures
            wf(final(self)@),
            final(self)@ == unload_model(old(self)@, i as int),
            final(self)@.len() == old(self)@.len(),
            !loaded(final(self)@, i as int),
            final(self)@[i as int].name == old(self)@[i as int].name,
            final(self)@[i as int].parent == old(self)@[i as int].parent,
            forall|j: int|
                0 <= j < final(self)@.len() && j != i ==> final(self)@[j] == old(self)@[j],
    {
        self.nodes[i].subnodes = None;
        proof {
            let t0 = old(self)@;
            let t1 = self@;
            assert(t1 =~~= unload_model(t0, i as int));
            assert forall|j: int| 0 <= j < t1.len() implies #[trigger] wf_node(t1, j) by {
                assert(wf_node(t0, j));
                if j != i && loaded(t1, j) {
                    assert(kids(t1, j) == kids(t0, j));
                    assert forall|k: int| 0 <= k < kids(t1, j).len() implies j
                        < #[trigger] kids(t1, j)[k] < t1.len() && t1[kids(t1, j)[k]].parent
                        == Some(j) by {
                        assert(t1[kids(t0, j)[k]].parent == t0[kids(t0, j)[k]].parent);
                    }
                }
            }
        }
    }
}

/// The children a load builds depend only on the listing: after a load on an
/// unloaded node `i`, the node holds a snapshot whose children carry exactly
/// the listed names, in listing order, each of them unloaded.
pub proof fn lemma_load_shape(t: Seq<NodeModel>, i: int, names: Seq<Seq<char>>)
    requires
        0 <= i < t.len(),
    ensures
        ({
            let t1 = load_model(t, i, names);
            &&& loaded(t1, i)
            &&& kid_names(t1, i) == names
            &&& forall|k: int|
                0 <= k < kids(t1, i).len() ==> !loaded(t1, #[trigger] kids(t1, i)[k])
        }),
{
    let t1 = load_model(t, i, names);
    assert(kids(t1, i) =~= Seq::new(names.len(), |k: int| t.len() + k));
    assert forall|k: int| 0 <= k < kids(t1, i).len() implies !loaded(
        t1,
        #[trigger] kids(t1, i)[k],
    ) by {
        assert(t1[t.len() + k].subnodes is None);
    }
    assert(kid_names(t1, i) =~= names);
}

/// Unloading a node and loading it again with the same listing rebuilds a
/// subtree structurally equivalent to the one the first load built: the node
/// is unloaded in between, and both loads leave it with children named by
/// the listing, in order, each unloaded.
pub proof fn lemma_reload_round_trip(t: Seq<NodeModel>, i: int, names: Seq<Seq<char>>)
    requires
        0 <= i < t.len(),
    ensures
        ({
            let t1 = load_model(t, i, names);
            let t2 = load_model(unload_model(t1, i), i, names);
            &&& !loaded(unload_model(t1, i), i)
            &&& kid_names(t2, i) == kid_names(t1, i)
            &&& kid_names(t2, i) == names
            &&& forall|k: int|
                0 <= k < kids(t2, i).len() ==> !loaded(t2, #[trigger] kids(t2, i)[k])
        }),
{
    let t1 = load_model(t, i, names);
    lemma_load_shape(t, i, names);
    lemma_load_shape(unload_model(t1, i), i, names);
}

/// Appends one segment to `path`, inserting a `/` separator unless the path
/// is still empty or already ends with one.
fn append_segment(path: &mut String, name: &String)
    ensures
        final(path)@ == push_seg(old(path)@, name@),
{
    let n = path.as_str().unicode_len();
    if n > 0 {
        let last = path.as_str().get_char(n - 1);
        if last != '/' {
            path.append("/");
            proof {
                reveal_strlit("/");
                assert(path@ =~= old(path)@.push('/'));
            }
        }
    }
    path.append(name.as_str());
}

/// ASCII-lowercased code point of `c`.
fn char_lower(c: char) -> (r: u32)
    ensures
        r as int == lower(c),
{
    let u = c as u32;
    if 65 <= u && u <= 90 {
        u + 32
    } else {
        u
    }
}

/// Whether `name` starts with `letter`, case-insensitively on the first
/// character.
fn name_starts_with(name: &String, letter: char) -> (r: bool)
    ensures
        r == starts_with_letter(name@, letter),
{
    let n = name.as_str().unicode_len();
    if n == 0 {
        false
    } else {
        let c = name.as_str().get_char(0);
        char_lower(c) == char_lower(letter)
    }
}

impl Tree {
    /// The absolute path of node `i`, rebuilt by walking the parent links up
    /// to the root and joining the names root-to-leaf. Pure: no reading, no
    /// mutation.
    pub fn get_path(&self, i: usize) -> (r: String)
        requires
            wf(self@),
            i < self@.len(),
        ensures
            r@ == path_model(self@, i as int),
    {
        let mut chain: Vec<usize> = Vec::new();
        chain.push(i);
        let mut cur = i;
        while self.nodes[cur].parent.is_some()
            invariant
                wf(self@),
                i < self@.len(),
                cur < self@.len(),
                chain@.len() >= 1,
                chain@[0] == i,
                chain@[chain@.len() - 1] == cur,
                forall|k: int| 0 <= k < chain@.len() ==> #[trigger] chain@[k] < self@.len(),
                forall|k: int|
                    0 <= k < chain@.len() - 1 ==> self@[#[trigger] chain@[k] as int].parent
                        == Some(chain@[k + 1] as int),
            decreases cur,
        {
            proof {
                assert(wf_node(self@, cur as int));
            }
            let p = match self.nodes[cur].parent {
                Some(p) => p,
                None => 0,
            };
            chain.push(p);
            cur = p;
        }
        let ghost t = self@;
        let mut path = String::new();
        let mut j = chain.len();
        while j > 0
            invariant
                wf(self@),
                self@ == t,
                chain@.len() >= 1,
                chain@[0] == i,
                j <= chain@.len(),
                self@[chain@[chain@.len() - 1] as int].parent is None,
                forall|k: int| 0 <= k < chain@.len() ==> #[trigger] chain@[k] < self@.len(),
                forall|k: int|
                    0 <= k < chain@.len() - 1 ==> self@[#[trigger] chain@[k] as int].parent
                        == Some(chain@[k + 1] as int),
                j == chain@.len() ==> path@ == Seq::<char>::empty(),
                j < chain@.len() ==> path@ == path_model(self@, chain@[j as int] as int),
            decreases j,
        {
            j = j - 1;
            let n = chain[j];
            append_segment(&mut path, &self.nodes[n].file_node.name);
            proof {
                assert(wf_node(t, n as int));
                if j + 1 == chain@.len() {
                    assert(t[n as int].parent is None);
                    assert(path_model(t, n as int) == t[n as int].name);
                    assert(Seq::<char>::empty() + t[n as int].name =~= t[n as int].name);
                } else {
                    assert(t[n as int].parent == Some(chain@[j + 1] as int));
                }
            }
        }
        path
    }

    /// One resolution pass for the path components `comps` (from position
    /// `pos` on), walking down from node `start`. The walk cannot read the
    /// filesystem itself: when it stands on a node whose listing is missing
    /// it reports that node, and the caller loads it and resolves again.
    pub fn find(&self, start: usize, comps: &Vec<PathComponent>, pos: usize) -> (r: Result<
        FindProgress,
        AppError,
    >)
        requires
            wf(self@),
            start < self@.len(),
        ensures
            ({
                let outcome = resolve_model(
                    self@,
                    start as int,
                    comp_views(comps@),
                    pos as int,
                );
                match r {
                    Ok(FindProgress::Found(n)) => n < self@.len() && outcome
                        == ResolveModel::Found(n as int),
                    Ok(FindProgress::NeedLoad(n)) => n < self@.len() && !loaded(self@, n as int)
                        && outcome == ResolveModel::NeedLoad(n as int),
                    Err(e) => outcome == ResolveModel::NotFound && e.text()
                        == "Cannot find specified path"@,
                }
            }),
    {
        let ghost cm = comp_views(comps@);
        let mut cur = start;
        let mut p = pos;
        while p < comps.len()
            invariant
                wf(self@),
                cur < self@.len(),
                resolve_model(self@, start as int, cm, pos as int) == resolve_model(
                    self@,
                    cur as int,
                    cm,
                    p as int,
                ),
                cm == comp_views(comps@),
            decreases comps@.len() - p,
        {
            let c = &comps[p];
            proof {
                assert(cm[p as int] == comps@[p as int]@);
            }
            match c {
                PathComponent::Normal(name) => {
                    match &self.nodes[cur].subnodes {
                        None => {
                            return Ok(FindProgress::NeedLoad(cur));
                        },
                        Some(cs) => {
                            proof {
                                assert(wf_node(self@, cur as int));
                                assert(kids(self@, cur as int) == cs@.map_values(
                                    |c: usize| c as int,
                                ));
                            }
                            let ghost km = kids(self@, cur as int);
                            let mut k: usize = 0;
                            let mut next: Option<usize> = None;
                            while k < cs.len() && next.is_none()
                                invariant
                                    wf(self@),
                                    cur < self@.len(),
                                    k <= cs@.len(),
                                    km == kids(self@, cur as int),
                                    km == cs@.map_values(|c: usize| c as int),
                                    loaded(self@, cur as int),
                                    next is None ==> first_child_named(self@, km, 0, name@)
                                        == first_child_named(self@, km, k as int, name@),
                                    match next {
                                        Some(n) => n < self@.len() && first_child_named(
                                            self@,
                                            km,
                                            0,
                                            name@,
                                        ) == Some(n as int),
                                        None => true,
                                    },
                                decreases
                                        cs@.len() - k,
                                        (if next is None {
                                            1int
                                        } else {
                                            0int
                                        }),
                            {
                                proof {
                                    assert(km[k as int] == cs@[k as int] as int);
                                    assert(wf_node(self@, cur as int));
                                }
                                let child = cs[k];
                                if self.nodes[child].file_node.name == *name {
                                    next = Some(child);
                                } else {
                                    k += 1;
                                }
                            }
                            match next {
                                Some(n) => {
                                    proof {
                                        assert(resolve_model(self@, cur as int, cm, p as int)
                                            == resolve_model(self@, n as int, cm, p + 1));
                                    }
                                    cur = n;
                                    p += 1;
                                },
                                None => {
                                    return Err(AppError::StatStr("Cannot find specified path"));
                                },
                            }
                        },
                    }
                },
                _ => {
                    return Err(AppError::StatStr("Cannot find specified path"));
                },
            }
        }
        Ok(FindProgress::Found(cur))
    }

    /// The next sibling of node `i`, cyclically after it among its parent's
    /// loaded children, whose name starts with `letter` (ASCII
    /// case-insensitive); `None` when there is no parent, no snapshot, or no
    /// such sibling.
    pub fn find_next(&self, i: usize, letter: char) -> (r: Option<usize>)
        requires
            wf(self@),
            i < self@.len(),
        ensures
            match r {
                Some(n) => n < self@.len() && next_model(self@, i as int, letter) == Some(n as int),
                None => next_model(self@, i as int, letter) is None,
            },
    {
        let p = match self.nodes[i].parent {
            Some(p) => p,
            None => {
                return None;
            },
        };
        proof {
            assert(wf_node(self@, i as int));
        }
        let cs = match &self.nodes[p].subnodes {
            Some(cs) => cs,
            None => {
                return None;
            },
        };
        proof {
            assert(wf_node(self@, p as int));
            assert(kids(self@, p as int) == cs@.map_values(|c: usize| c as int));
        }
        let ghost km = kids(self@, p as int);
        let mut k: usize = 0;
        let mut posn: Option<usize> = None;
        while k < cs.len() && posn.is_none()
            invariant
                wf(self@),
                p < self@.len(),
                k <= cs@.len(),
                km == kids(self@, p as int),
                km == cs@.map_values(|c: usize| c as int),
                loaded(self@, p as int),
                posn is None ==> index_of_kid(km, 0, i as int) == index_of_kid(
                    km,
                    k as int,
                    i as int,
                ),
                match posn {
                    Some(k0) => k0 < cs@.len() && index_of_kid(km, 0, i as int) == Some(k0 as int),
                    None => true,
                },
            decreases cs@.len() - k, (if posn is None { 1int } else { 0int }),
        {
            proof {
                assert(km[k as int] == cs@[k as int] as int);
            }
            if cs[k] == i {
                posn = Some(k);
            } else {
                k += 1;
            }
        }
        let kpos = match posn {
            Some(k0) => k0,
            None => {
                return None;
            },
        };
        let mut pos = kpos;
        let mut steps = cs.len();
        let mut res: Option<usize> = None;
        while steps > 0 && res.is_none()
            invariant
                wf(self@),
                p < self@.len(),
                pos < cs@.len(),
                steps <= cs@.len(),
                km == kids(self@, p as int),
                km == cs@.map_values(|c: usize| c as int),
                loaded(self@, p as int),
                res is None ==> scan_cyclic(self@, km, kpos as int, letter, km.len() as int)
                    == scan_cyclic(self@, km, pos as int, letter, steps as int),
                match res {
                    Some(n) => n < self@.len() && scan_cyclic(
                        self@,
                        km,
                        kpos as int,
                        letter,
                        km.len() as int,
                    ) == Some(n as int),
                    None => true,
                },
            decreases steps, (if res is None { 1int } else { 0int }),
        {
            let slots = cs.len();
            let np = if pos + 1 >= slots {
                0
            } else {
                pos + 1
            };
            proof {
                assert(km[np as int] == cs@[np as int] as int);
                assert(wf_node(self@, p as int));
            }
            let child = cs[np];
            if name_starts_with(&self.nodes[child].file_node.name, letter) {
                res = Some(child);
            } else {
                pos = np;
                steps -= 1;
            }
        }
        res
    }
}

} // verus!
