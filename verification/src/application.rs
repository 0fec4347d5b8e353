use vstd::prelude::*;

use crate::errors::AppError;
use crate::filesystem::{comp_views, opt_str_view, CompModel, PathComponent};
use crate::structures::{
    canonical, kids, lemma_path_round_trip, load_model, loaded, next_model, path_model,
    resolve_model, seg_comps, unload_model, wf, wf_node, FileNode, FindProgress, NodeModel,
    ResolveModel, Tree,
};

verus! {

/// Minimum number of rows kept visible between the cursor and the viewport
/// edges when the list is long enough.
pub const V_MARGIN: usize = 3;

/// One visible line of the flattened tree: the node it stands for and the
/// connector drawing standing before the node's name.
pub struct TVItem {
    pub tree_node: usize,
    pub drawing: String,
}

/// The ghost shape of one row.
#[verifier::ext_equal]
pub struct RowModel {
    pub node: int,
    pub drawing: Seq<char>,
}

impl View for TVItem {
    type V = RowModel;

    open spec fn view(&self) -> RowModel {
        RowModel { node: self.tree_node as int, drawing: self.drawing@ }
    }
}

/// The ghost rows of a row list.
pub open spec fn rows(items: Seq<TVItem>) -> Seq<RowModel> {
    items.map_values(|it: TVItem| it@)
}

/// The four connector cells one ancestor level contributes: a continuation
/// bar while that ancestor still has later siblings, blanks otherwise.
pub open spec fn glyphs_lead(b: bool) -> Seq<char> {
    if b {
        seq!['│', ' ', ' ', ' ']
    } else {
        seq![' ', ' ', ' ', ' ']
    }
}

/// The branch cell directly before a row's name: a tee while later siblings
/// follow, a corner for the last sibling, nothing for the root.
pub open spec fn glyphs_link(link: Option<bool>) -> Seq<char> {
    match link {
        Some(true) => seq!['├', '─', '─', '─'],
        Some(false) => seq!['└', '─', '─', '─'],
        None => Seq::empty(),
    }
}

/// The lead drawing for a stack of ancestor continuation flags.
pub open spec fn lead_model(prevs: Seq<bool>) -> Seq<char>
    decreases prevs.len(),
{
    if prevs.len() == 0 {
        Seq::empty()
    } else {
        lead_model(prevs.drop_last()) + glyphs_lead(prevs.last())
    }
}

/// The rows a pre-order walk of the subtree at `i` produces: the node's own
/// row first, then — only when the node holds a loaded snapshot — the rows of
/// each child in listing order. `prevs` carries one continuation flag per
/// ancestor level, `link` whether this node still has later siblings (`None`
/// for the root).
pub open spec fn flat_model(
    t: Seq<NodeModel>,
    i: int,
    prevs: Seq<bool>,
    link: Option<bool>,
) -> Seq<RowModel>
    decreases t.len() - i, 1int, 0int,
{
    let row = RowModel { node: i, drawing: lead_model(prevs) + glyphs_link(link) };
    let prevs2 = match link {
        Some(b) => prevs.push(b),
        None => prevs,
    };
    if loaded(t, i) {
        seq![row] + flat_kids(t, i, kids(t, i), 0, prevs2)
    } else {
        seq![row]
    }
}

/// The rows of the children `cs` of node `i`, from position `k` on.
pub open spec fn flat_kids(
    t: Seq<NodeModel>,
    i: int,
    cs: Seq<int>,
    k: int,
    prevs: Seq<bool>,
) -> Seq<RowModel>
    decreases t.len() - i, 0int, cs.len() - k,
{
    if k < 0 || k >= cs.len() {
        Seq::empty()
    } else if i < cs[k] && cs[k] < t.len() {
        flat_model(t, cs[k], prevs, Some(k < cs.len() - 1)) + flat_kids(t, i, cs, k + 1, prevs)
    } else {
        Seq::empty()
    }
}

/// Every row a subtree flattening produces points into the arena at or below
/// the subtree's own index, and the subtree's own row comes first.
pub proof fn lemma_flat_range(t: Seq<NodeModel>, i: int, prevs: Seq<bool>, link: Option<bool>)
    requires
        wf(t),
        0 <= i < t.len(),
    ensures
        flat_model(t, i, prevs, link).len() >= 1,
        flat_model(t, i, prevs, link)[0].node == i,
        forall|r: int|
            0 <= r < flat_model(t, i, prevs, link).len() ==> i <= #[trigger] flat_model(
                t,
                i,
                prevs,
                link,
            )[r].node < t.len(),
    decreases t.len() - i, 1int, 0int,
{
    let prevs2 = match link {
        Some(b) => prevs.push(b),
        None => prevs,
    };
    let row = RowModel { node: i, drawing: lead_model(prevs) + glyphs_link(link) };
    let f = flat_model(t, i, prevs, link);
    if loaded(t, i) {
        assert(wf_node(t, i));
        lemma_flat_kids_range(t, i, kids(t, i), 0, prevs2);
        let fk = flat_kids(t, i, kids(t, i), 0, prevs2);
        assert(f == seq![row] + fk);
        assert forall|r: int| 0 <= r < f.len() implies i <= #[trigger] f[r].node < t.len() by {
            if r == 0 {
                assert(f[0] == row);
            } else {
                assert(f[r] == fk[r - 1]);
            }
        }
    } else {
        assert(f == seq![row]);
        assert(f[0] == row);
    }
}

/// Every row the children rows produce points strictly below `i` in the
/// arena.
pub proof fn lemma_flat_kids_range(t: Seq<NodeModel>, i: int, cs: Seq<int>, k: int, prevs: Seq<bool>)
    requires
        wf(t),
        0 <= i < t.len(),
    ensures
        forall|r: int|
            0 <= r < flat_kids(t, i, cs, k, prevs).len() ==> i < #[trigger] flat_kids(
                t,
                i,
                cs,
                k,
                prevs,
            )[r].node < t.len(),
    decreases t.len() - i, 0int, cs.len() - k,
{
    if 0 <= k < cs.len() && i < cs[k] < t.len() {
        lemma_flat_range(t, cs[k], prevs, Some(k < cs.len() - 1));
        lemma_flat_kids_range(t, i, cs, k + 1, prevs);
        let fm = flat_model(t, cs[k], prevs, Some(k < cs.len() - 1));
        let rest = flat_kids(t, i, cs, k + 1, prevs);
        let f = flat_kids(t, i, cs, k, prevs);
        assert(f == fm + rest);
        assert forall|r: int| 0 <= r < f.len() implies i < #[trigger] f[r].node < t.len() by {
            if r < fm.len() {
                assert(f[r] == fm[r]);
            } else {
                assert(f[r] == rest[r - fm.len()]);
            }
        }
    }
}

/// Appends to `list` the rows of the subtree at `node`, drawing each row's
/// connector prefix from the ancestor continuation flags in `prevs_stack`;
/// `not_last` says whether `node` still has later siblings.
fn add_node(
    tree: &Tree,
    list: &mut Vec<TVItem>,
    node: usize,
    prevs_stack: &mut Vec<bool>,
    not_last: Option<bool>,
)
    requires
        wf(tree@),
        node < tree@.len(),
    ensures
        rows(final(list)@) == rows(old(list)@) + flat_model(
            tree@,
            node as int,
            old(prevs_stack)@,
            not_last,
        ),
        final(prevs_stack)@ == old(prevs_stack)@,
    decreases tree@.len() - node,
{
    let ghost t = tree@;
    let ghost prevs0 = prevs_stack@;
    let ghost rows0 = rows(list@);
    let mut drawing = String::new();
    let mut j: usize = 0;
    while j < prevs_stack.len()
        invariant
            j <= prevs_stack@.len(),
            prevs_stack@ == prevs0,
            drawing@ == lead_model(prevs0.take(j as int)),
        decreases prevs_stack@.len() - j,
    {
        if prevs_stack[j] {
            drawing.append("│   ");
        } else {
            drawing.append("    ");
        }
        proof {
            reveal_strlit("│   ");
            reveal_strlit("    ");
            assert(prevs0.take(j + 1).drop_last() =~= prevs0.take(j as int));
            assert(prevs0.take(j + 1).last() == prevs0[j as int]);
            assert(glyphs_lead(true) =~= "│   "@);
            assert(glyphs_lead(false) =~= "    "@);
        }
        j += 1;
    }
    proof {
        assert(prevs0.take(prevs0.len() as int) =~= prevs0);
    }
    match not_last {
        Some(true) => {
            drawing.append("├───");
            proof {
                reveal_strlit("├───");
                assert(glyphs_link(not_last) =~= "├───"@);
            }
        },
        Some(false) => {
            drawing.append("└───");
            proof {
                reveal_strlit("└───");
                assert(glyphs_link(not_last) =~= "└───"@);
            }
        },
        None => {
            proof {
                assert(drawing@ + glyphs_link(not_last) =~= drawing@);
            }
        },
    }
    let ghost row_model = RowModel {
        node: node as int,
        drawing: lead_model(prevs0) + glyphs_link(not_last),
    };
    let row = TVItem { tree_node: node, drawing };
    proof {
        assert(row@ =~= row_model);
    }
    list.push(row);
    proof {
        assert(rows(list@) =~= rows0.push(row_model));
    }
    let pushed = match not_last {
        Some(b) => {
            prevs_stack.push(b);
            true
        },
        None => false,
    };
    let ghost prevs2 = prevs_stack@;
    proof {
        match not_last {
            Some(b) => assert(prevs2 == prevs0.push(b)),
            None => assert(prevs2 == prevs0),
        }
    }
    match &tree.nodes[node].subnodes {
        None => {
            proof {
                assert(flat_model(t, node as int, prevs0, not_last) =~= seq![row_model]);
                assert(rows(list@) =~= rows0 + flat_model(t, node as int, prevs0, not_last));
            }
        },
        Some(cs) => {
            proof {
                assert(wf_node(t, node as int));
                assert(kids(t, node as int) == cs@.map_values(|c: usize| c as int));
            }
            let ghost km = kids(t, node as int);
            proof {
                assert(flat_model(t, node as int, prevs0, not_last) =~= seq![row_model]
                    + flat_kids(t, node as int, km, 0, prevs2));
                assert(rows(list@) + flat_kids(t, node as int, km, 0, prevs2) =~= rows0
                    + flat_model(t, node as int, prevs0, not_last));
            }
            let mut k: usize = 0;
            while k < cs.len()
                invariant
                    wf(t),
                    tree@ == t,
                    node < t.len(),
                    loaded(t, node as int),
                    km == kids(t, node as int),
                    km == cs@.map_values(|c: usize| c as int),
                    k <= cs@.len(),
                    prevs_stack@ == prevs2,
                    rows(list@) + flat_kids(t, node as int, km, k as int, prevs2) == rows0
                        + flat_model(t, node as int, prevs0, not_last),
                decreases cs@.len() - k,
            {
                proof {
                    assert(km[k as int] == cs@[k as int] as int);
                    assert(wf_node(t, node as int));
                }
                let child = cs[k];
                let child_not_last = Some(k + 1 < cs.len());
                add_node(tree, list, child, prevs_stack, child_not_last);
                proof {
                    assert(flat_kids(t, node as int, km, k as int, prevs2) == flat_model(
                        t,
                        km[k as int],
                        prevs2,
                        Some(k < km.len() - 1),
                    ) + flat_kids(t, node as int, km, k + 1, prevs2));
                    assert(child_not_last == Some(k < km.len() - 1));
                    assert(rows(list@) + flat_kids(t, node as int, km, k + 1, prevs2) =~= rows0
                        + flat_model(t, node as int, prevs0, not_last));
                }
                k += 1;
            }
            proof {
                assert(flat_kids(t, node as int, km, k as int, prevs2) =~= Seq::<
                    RowModel,
                >::empty());
                assert(rows(list@) + Seq::<RowModel>::empty() =~= rows(list@));
            }
        },
    }
    if pushed {
        let _ = prevs_stack.pop();
        proof {
            assert(prevs_stack@ =~= prevs0);
        }
    }
}

/// The first row (from position `k` on) standing for node `n`.
pub open spec fn first_row_from(rs: Seq<RowModel>, k: int, n: int) -> Option<int>
    decreases rs.len() - k,
{
    if k < 0 || k >= rs.len() {
        None
    } else if rs[k].node == n {
        Some(k)
    } else {
        first_row_from(rs, k + 1, n)
    }
}

/// Where the cursor lands when asked to move to node `n`: the first row
/// standing for `n`, or where it was when no row does.
pub open spec fn goto_model(rs: Seq<RowModel>, cur: int, n: int) -> int {
    match first_row_from(rs, 0, n) {
        Some(k) => k,
        None => cur,
    }
}

/// The first row of `items` standing for `node`.
fn find_row(items: &Vec<TVItem>, node: usize) -> (r: Option<usize>)
    ensures
        match r {
            Some(k) => k < items@.len() && first_row_from(rows(items@), 0, node as int) == Some(
                k as int,
            ),
            None => first_row_from(rows(items@), 0, node as int) is None,
        },
{
    let mut k: usize = 0;
    while k < items.len()
        invariant
            k <= items@.len(),
            first_row_from(rows(items@), 0, node as int) == first_row_from(
                rows(items@),
                k as int,
                node as int,
            ),
        decreases items@.len() - k,
    {
        proof {
            assert(rows(items@)[k as int] == items@[k as int]@);
        }
        if items[k].tree_node == node {
            return Some(k);
        }
        k += 1;
    }
    None
}

/// The scroll offset the viewport takes for one frame: when the cursor sits
/// within the margin of the window's top edge the window slides up until the
/// cursor is exactly the margin away (symmetrically at the bottom), and the
/// offset is always clamped into `[0, max(0, rows − height)]`. The margin is
/// `V_MARGIN`, clamped to half the viewport height.
pub open spec fn calc_offset_model(rows_n: int, cursor: int, offset: int, height: int) -> int {
    if height > 0 {
        let margin = if V_MARGIN as int <= height / 2 {
            V_MARGIN as int
        } else {
            height / 2
        };
        let max_offs = if rows_n - height >= 0 {
            rows_n - height
        } else {
            0
        };
        let location = cursor - offset;
        let desired = if location < margin {
            cursor - margin
        } else if location >= height - margin {
            cursor - height + margin + 1
        } else {
            offset
        };
        if desired < 0 {
            0
        } else if desired > max_offs {
            max_offs
        } else {
            desired
        }
    } else {
        offset
    }
}

/// A navigation command; the caller maps raw key events to these.
#[derive(Clone, Copy)]
pub enum Command {
    MoveUp,
    MoveDown,
    ScrollUp,
    ScrollDown,
    Expand,
    Collapse,
    JumpToLetter(char),
    Confirm,
    Cancel,
}

/// What one dispatched command asks of the caller.
pub enum Outcome {
    /// Keep browsing.
    Continue,
    /// The node under the cursor needs its listing: read the directory at
    /// `path` and hand the result to `provide_listing` for `node`.
    NeedsListing { node: usize, path: String },
    /// Terminal: the user confirmed the directory at `path`.
    Selected { path: String },
    /// Terminal: the user cancelled the session.
    Cancelled,
}

/// The navigator: the tree, the flattened row list derived from it, and the
/// cursor and scroll state over that list.
pub struct Application {
    /// The platform prefix (such as a drive) the session root sits under.
    pub prefix: Option<String>,
    /// The directory tree, rooted at the session root.
    pub tree: Tree,
    /// The flattened view, rebuilt after every structural change.
    pub tv_items: Vec<TVItem>,
    /// Index of the selected row.
    pub cursor: usize,
    /// First visible row, as adjusted by scrolling; `calc_offset` clamps it
    /// each frame.
    pub display_offset: usize,
}

impl Application {
    /// The navigator's invariant: a well-formed tree, a row list that is
    /// exactly the flattening of the tree's loaded shape (hence never
    /// empty), and a cursor inside that list.
    pub open spec fn inv(&self) -> bool {
        &&& wf(self.tree@)
        &&& rows(self.tv_items@) == flat_model(self.tree@, 0, Seq::empty(), None)
        &&& 1 <= self.tv_items@.len()
        &&& self.cursor < self.tv_items@.len()
        &&& forall|r: int|
            0 <= r < self.tv_items@.len() ==> 0 <= #[trigger] self.tv_items@[r]@.node
                < self.tree@.len()
    }

    /// A fresh session over an unloaded root named `root_name`, standing
    /// under the optional platform prefix: one row, cursor on it.
    pub fn new(prefix: Option<String>, root_name: String) -> (r: Application)
        ensures
            r.inv(),
            r.prefix == prefix,
            r.tree@.len() == 1,
            r.tree@[0].name == root_name@,
            !loaded(r.tree@, 0),
            r.cursor == 0,
            r.display_offset == 0,
            r.tv_items@.len() == 1,
    {
        let tree = Tree::new(FileNode { name: root_name });
        let mut app = Application {
            prefix,
            tree,
            tv_items: Vec::new(),
            cursor: 0,
            display_offset: 0,
        };
        app.render_tree_view();
        proof {
            lemma_flat_range(app.tree@, 0, Seq::empty(), None);
            assert(flat_model(app.tree@, 0, Seq::empty(), None).len() == 1);
        }
        app
    }

    /// Rebuilds the row list from the tree's current loaded shape and clamps
    /// the cursor to the (never empty) new list.
    fn render_tree_view(&mut self)
        requires
            wf(old(self).tree@),
        ensures
            final(self).tree == old(self).tree,
            final(self).prefix == old(self).prefix,
            final(self).display_offset == old(self).display_offset,
            rows(final(self).tv_items@) == flat_model(old(self).tree@, 0, Seq::empty(), None),
            final(self).tv_items@.len() >= 1,
            final(self).cursor == if old(self).cursor < final(self).tv_items@.len() {
                old(self).cursor as int
            } else {
                final(self).tv_items@.len() - 1
            },
            final(self).inv(),
    {
        self.tv_items.clear();
        let mut prevs_stack: Vec<bool> = Vec::new();
        add_node(&self.tree, &mut self.tv_items, 0, &mut prevs_stack, None);
        proof {
            let t = self.tree@;
            let f = flat_model(t, 0, Seq::empty(), None);
            lemma_flat_range(t, 0, Seq::empty(), None);
            assert(rows(self.tv_items@) =~= f);
            assert(self.tv_items@.len() == f.len());
            assert forall|r: int| 0 <= r < self.tv_items@.len() implies 0
                <= #[trigger] self.tv_items@[r]@.node < t.len() by {
                assert(rows(self.tv_items@)[r] == self.tv_items@[r]@);
            }
        }
        if self.cursor >= self.tv_items.len() {
            self.cursor = self.tv_items.len() - 1;
        }
    }

    /// Moves the cursor to the first row standing for `node`; the cursor
    /// stays put when no row does. Used after startup resolution to place
    /// the cursor on the resolved directory's row.
    pub fn goto(&mut self, node: usize)
        requires
            old(self).inv(),
        ensures
            final(self).inv(),
            final(self).tree == old(self).tree,
            final(self).tv_items == old(self).tv_items,
            final(self).display_offset == old(self).display_offset,
            final(self).prefix == old(self).prefix,
            final(self).cursor as int == goto_model(
                rows(old(self).tv_items@),
                old(self).cursor as int,
                node as int,
            ),
    {
        match find_row(&self.tv_items, node) {
            Some(k) => {
                self.cursor = k;
            },
            None => {},
        }
    }

    /// The scroll offset for one frame of height `height`, keeping the
    /// cursor `V_MARGIN` rows (clamped to half the height) inside the
    /// window where the list allows it. The caller stores the result back
    /// into `display_offset`.
    pub fn calc_offset(&self, height: usize) -> (r: usize)
        requires
            self.inv(),
        ensures
            r as int == calc_offset_model(
                self.tv_items@.len() as int,
                self.cursor as int,
                self.display_offset as int,
                height as int,
            ),
            height > 0 ==> r as int <= (if self.tv_items@.len() - height >= 0 {
                self.tv_items@.len() - height
            } else {
                0int
            }),
            height > 0 ==> r <= self.cursor && self.cursor < r + height,
            ({
                let rows_n = self.tv_items@.len() as int;
                let margin = if V_MARGIN as int <= height as int / 2 {
                    V_MARGIN as int
                } else {
                    height as int / 2
                };
                height > 0 && rows_n >= height && 2 * margin + 1 <= height ==> {
                    &&& self.cursor - r >= (if margin <= self.cursor {
                        margin
                    } else {
                        self.cursor as int
                    })
                    &&& (r + height - 1) - self.cursor >= (if margin <= rows_n - 1 - self.cursor {
                        margin
                    } else {
                        rows_n - 1 - self.cursor
                    })
                }
            }),
    {
        let rows_n = self.tv_items.len();
        let cursor = self.cursor;
        let offset = self.display_offset;
        if height == 0 {
            return offset;
        }
        let margin = if V_MARGIN <= height / 2 {
            V_MARGIN
        } else {
            height / 2
        };
        let max_offs = if rows_n > height {
            rows_n - height
        } else {
            0
        };
        let desired: usize = if cursor < offset || cursor - offset < margin {
            if cursor > margin {
                cursor - margin
            } else {
                0
            }
        } else if cursor - offset >= height - margin {
            cursor - (height - (margin + 1))
        } else {
            offset
        };
        if desired > max_offs {
            max_offs
        } else {
            desired
        }
    }

    /// Dispatches one abstract command against the current state.
    /// Movement clamps the cursor to the row list; collapsing a loaded node
    /// unloads it and rebuilds the rows (collapsing an unloaded one moves to
    /// its parent's row instead); expanding a loaded node moves to its first
    /// child's row, while expanding an unloaded one asks the caller for its
    /// listing; confirming hands back the path under the cursor. The cursor
    /// stays inside the row list whatever sequence of commands runs.
    #[verifier::rlimit(100)]
    #[verifier::spinoff_prover]
    pub fn run(&mut self, cmd: Command) -> (r: Outcome)
        requires
            old(self).inv(),
        ensures
            final(self).inv(),
            final(self).prefix == old(self).prefix,
            ({
                let n = old(self).tv_items@[old(self).cursor as int]@.node;
                let t0 = old(self).tree@;
                let rs0 = rows(old(self).tv_items@);
                match cmd {
                    Command::MoveUp => final(self).tree == old(self).tree && final(self).tv_items
                        == old(self).tv_items && final(self).display_offset == old(self).display_offset && (r is Continue) && final(self).cursor as int == (if old(self).cursor > 0 {
                        old(self).cursor - 1
                    } else {
                        0int
                    }),
                    Command::MoveDown => final(self).tree == old(self).tree && final(self).tv_items
                        == old(self).tv_items && final(self).display_offset == old(self).display_offset && (r is Continue) && final(self).cursor as int == (if old(self).cursor + 1 < old(self).tv_items@.len() {
                        old(self).cursor + 1
                    } else {
                        old(self).cursor as int
                    }),
                    Command::ScrollUp => final(self).tree == old(self).tree && final(self).tv_items
                        == old(self).tv_items && final(self).cursor == old(self).cursor && (
                    r is Continue) && final(self).display_offset as int == (if old(self).display_offset > 0 {
                        old(self).display_offset - 1
                    } else {
                        0int
                    }),
                    Command::ScrollDown => final(self).tree == old(self).tree && final(self).tv_items == old(self).tv_items && final(self).cursor == old(self).cursor && (
                    r is Continue) && final(self).display_offset as int == (if old(self).display_offset < old(self).tv_items@.len() {
                        old(self).display_offset + 1
                    } else {
                        old(self).display_offset as int
                    }),
                    Command::Collapse => (r is Continue) && final(self).display_offset == old(self).display_offset && (if loaded(t0, n) {
                        &&& final(self).tree@ == unload_model(t0, n)
                        &&& rows(final(self).tv_items@) == flat_model(
                            final(self).tree@,
                            0,
                            Seq::empty(),
                            None,
                        )
                        &&& final(self).cursor as int == (if old(self).cursor < final(self).tv_items@.len() {
                            old(self).cursor as int
                        } else {
                            final(self).tv_items@.len() - 1
                        })
                    } else {
                        &&& final(self).tree == old(self).tree
                        &&& rows(final(self).tv_items@) == rs0
                        &&& final(self).cursor as int == (match t0[n].parent {
                            Some(p) => goto_model(rs0, old(self).cursor as int, p),
                            None => old(self).cursor as int,
                        })
                    }),
                    Command::Expand => if loaded(t0, n) {
                        &&& final(self).tree == old(self).tree
                        &&& final(self).tv_items == old(self).tv_items
                        &&& final(self).display_offset == old(self).display_offset
                        &&& (r is Continue)
                        &&& final(self).cursor as int == (if kids(t0, n).len() > 0 {
                            goto_model(rs0, old(self).cursor as int, kids(t0, n)[0])
                        } else {
                            old(self).cursor as int
                        })
                    } else {
                        &&& *final(self) == *old(self)
                        &&& (r matches Outcome::NeedsListing { node, path } && node == n && path@
                            == path_model(t0, n))
                    },
                    Command::JumpToLetter(letter) => final(self).tree == old(self).tree && final(self).tv_items == old(self).tv_items && final(self).display_offset == old(self).display_offset && (r is Continue) && final(self).cursor as int == (
                    match next_model(t0, n, letter) {
                        Some(m) => goto_model(rs0, old(self).cursor as int, m),
                        None => old(self).cursor as int,
                    }),
                    Command::Confirm => *final(self) == *old(self) && (
                    r matches Outcome::Selected { path } && path@ == path_model(t0, n)),
                    Command::Cancel => *final(self) == *old(self) && (r is Cancelled),
                }
            }),
    {
        let node = self.tv_items[self.cursor].tree_node;
        proof {
            assert(rows(self.tv_items@)[self.cursor as int] == self.tv_items@[self.cursor as int]@);
            assert(self.tv_items@[self.cursor as int]@.node == node as int);
        }
        match cmd {
            Command::MoveUp => {
                if self.cursor > 0 {
                    self.cursor -= 1;
                }
                Outcome::Continue
            },
            Command::MoveDown => {
                if self.cursor < self.tv_items.len() - 1 {
                    self.cursor += 1;
                }
                Outcome::Continue
            },
            Command::ScrollUp => {
                if self.display_offset > 0 {
                    self.display_offset -= 1;
                }
                Outcome::Continue
            },
            Command::ScrollDown => {
                if self.display_offset < self.tv_items.len() {
                    self.display_offset += 1;
                }
                Outcome::Continue
            },
            Command::Collapse => {
                self.on_collapse(node);
                Outcome::Continue
            },
            Command::Expand => self.on_expand(node),
            Command::JumpToLetter(letter) => {
                self.on_jump(node, letter);
                Outcome::Continue
            },
            Command::Confirm => {
                let path = self.tree.get_path(node);
                Outcome::Selected { path }
            },
            Command::Cancel => Outcome::Cancelled,
        }
    }

    /// Collapse on the node under the cursor: a loaded node drops its
    /// snapshot and the rows are rebuilt; an unloaded one moves the cursor
    /// up to its parent's row instead.
    fn on_collapse(&mut self, node: usize)
        requires
            old(self).inv(),
            node as int == old(self).tv_items@[old(self).cursor as int]@.node,
        ensures
            final(self).inv(),
            final(self).prefix == old(self).prefix,
            final(self).display_offset == old(self).display_offset,
            loaded(old(self).tree@, node as int) ==> {
                &&& final(self).tree@ == unload_model(old(self).tree@, node as int)
                &&& rows(final(self).tv_items@) == flat_model(
                    final(self).tree@,
                    0,
                    Seq::empty(),
                    None,
                )
                &&& final(self).cursor as int == (if old(self).cursor < final(self).tv_items@.len() {
                    old(self).cursor as int
                } else {
                    final(self).tv_items@.len() - 1
                })
            },
            !loaded(old(self).tree@, node as int) ==> {
                &&& final(self).tree == old(self).tree
                &&& rows(final(self).tv_items@) == rows(old(self).tv_items@)
                &&& final(self).cursor as int == (match old(self).tree@[node as int].parent {
                    Some(p) => goto_model(
                        rows(old(self).tv_items@),
                        old(self).cursor as int,
                        p,
                    ),
                    None => old(self).cursor as int,
                })
            },
    {
        proof {
            assert(self.tv_items@[self.cursor as int]@.node < self.tree@.len());
        }
        if self.tree.is_loaded(node) {
            self.tree.unload(node);
            self.render_tree_view();
        } else {
            match self.tree.nodes[node].parent {
                Some(par) => {
                    proof {
                        assert(wf_node(self.tree@, node as int));
                    }
                    self.goto(par);
                },
                None => {},
            }
            self.render_tree_view();
        }
    }

    /// Expand on the node under the cursor: a loaded node with children
    /// moves the cursor to its first child's row; an unloaded one asks the
    /// caller for its listing.
    fn on_expand(&mut self, node: usize) -> (r: Outcome)
        requires
            old(self).inv(),
            node as int == old(self).tv_items@[old(self).cursor as int]@.node,
        ensures
            final(self).inv(),
            final(self).prefix == old(self).prefix,
            loaded(old(self).tree@, node as int) ==> {
                &&& final(self).tree == old(self).tree
                &&& final(self).tv_items == old(self).tv_items
                &&& final(self).display_offset == old(self).display_offset
                &&& (r is Continue)
                &&& final(self).cursor as int == (if kids(old(self).tree@, node as int).len()
                    > 0 {
                    goto_model(
                        rows(old(self).tv_items@),
                        old(self).cursor as int,
                        kids(old(self).tree@, node as int)[0],
                    )
                } else {
                    old(self).cursor as int
                })
            },
            !loaded(old(self).tree@, node as int) ==> {
                &&& *final(self) == *old(self)
                &&& (r matches Outcome::NeedsListing { node: rn, path } && rn == node && path@
                    == path_model(old(self).tree@, node as int))
            },
    {
        proof {
            assert(self.tv_items@[self.cursor as int]@.node < self.tree@.len());
        }
        if self.tree.is_loaded(node) {
            let first: Option<usize> = match &self.tree.nodes[node].subnodes {
                Some(cs) => if cs.len() > 0 {
                    Some(cs[0])
                } else {
                    None
                },
                None => None,
            };
            match first {
                Some(child) => {
                    proof {
                        assert(kids(self.tree@, node as int)[0] == child as int);
                    }
                    self.goto(child);
                },
                None => {},
            }
            Outcome::Continue
        } else {
            let path = self.tree.get_path(node);
            Outcome::NeedsListing { node, path }
        }
    }

    /// Jump-to-letter on the node under the cursor: the cursor moves to the
    /// row of the next matching sibling, when there is one.
    fn on_jump(&mut self, node: usize, letter: char)
        requires
            old(self).inv(),
            node as int == old(self).tv_items@[old(self).cursor as int]@.node,
        ensures
            final(self).inv(),
            final(self).prefix == old(self).prefix,
            final(self).tree == old(self).tree,
            final(self).tv_items == old(self).tv_items,
            final(self).display_offset == old(self).display_offset,
            final(self).cursor as int == (match next_model(
                old(self).tree@,
                node as int,
                letter,
            ) {
                Some(m) => goto_model(rows(old(self).tv_items@), old(self).cursor as int, m),
                None => old(self).cursor as int,
            }),
    {
        proof {
            assert(self.tv_items@[self.cursor as int]@.node < self.tree@.len());
        }
        match self.tree.find_next(node, letter) {
            Some(m) => {
                self.goto(m);
            },
            None => {},
        }
    }

    /// Hands the listing read for `node` back to the navigator after a
    /// `NeedsListing` outcome. A listing loads the node (a no-op when it
    /// already holds a snapshot); `None` — a failed read — leaves the node
    /// unloaded. The rows are rebuilt either way, as a new flattening of the
    /// tree.
    pub fn provide_listing(&mut self, node: usize, listing: Option<Vec<String>>) -> (r: Outcome)
        requires
            old(self).inv(),
            node < old(self).tree@.len(),
        ensures
            final(self).inv(),
            final(self).prefix == old(self).prefix,
            final(self).display_offset == old(self).display_offset,
            (r is Continue),
            final(self).tree@ == (match listing {
                Some(names) => if loaded(old(self).tree@, node as int) {
                    old(self).tree@
                } else {
                    load_model(old(self).tree@, node as int, names.deep_view())
                },
                None => old(self).tree@,
            }),
            rows(final(self).tv_items@) == flat_model(final(self).tree@, 0, Seq::empty(), None),
            final(self).cursor as int == (if old(self).cursor < final(self).tv_items@.len() {
                old(self).cursor as int
            } else {
                final(self).tv_items@.len() - 1
            }),
    {
        match listing {
            Some(names) => {
                self.tree.load(node, &names);
            },
            None => {},
        }
        self.render_tree_view();
        Outcome::Continue
    }

    /// Resolves the parsed components of an absolute path against this
    /// session: the leading prefix (when there is one) must match the
    /// session's own, the root separator stands for the session root, and
    /// the normal segments walk down from there. Like `Tree::find`, one pass
    /// stops at the first unloaded node on the way.
    pub fn find(&self, comps: &Vec<PathComponent>) -> (r: Result<FindProgress, AppError>)
        requires
            self.inv(),
        ensures
            ({
                let outcome = app_resolve_model(
                    opt_str_view(self.prefix),
                    self.tree@,
                    comp_views(comps@),
                );
                match r {
                    Ok(FindProgress::Found(n)) => n < self.tree@.len() && outcome
                        == ResolveModel::Found(n as int),
                    Ok(FindProgress::NeedLoad(n)) => n < self.tree@.len() && !loaded(
                        self.tree@,
                        n as int,
                    ) && outcome == ResolveModel::NeedLoad(n as int),
                    Err(e) => outcome == ResolveModel::NotFound && e.text()
                        == "Cannot find specified path"@,
                }
            }),
    {
        if comps.len() == 0 {
            return Err(AppError::StatStr("Cannot find specified path"));
        }
        let c0 = &comps[0];
        proof {
            assert(comp_views(comps@)[0] == comps@[0]@);
        }
        match c0 {
            PathComponent::Prefix(p) => {
                match &self.prefix {
                    Some(pref) => {
                        if *pref == *p {
                            if comps.len() >= 2 {
                                let c1 = &comps[1];
                                proof {
                                    assert(comp_views(comps@)[1] == comps@[1]@);
                                }
                                if matches!(c1, PathComponent::RootDir) {
                                    return self.tree.find(0, comps, 2);
                                }
                            }
                            Err(AppError::StatStr("Cannot find specified path"))
                        } else {
                            Err(AppError::StatStr("Cannot find specified path"))
                        }
                    },
                    None => Err(AppError::StatStr("Cannot find specified path")),
                }
            },
            PathComponent::RootDir => self.tree.find(0, comps, 1),
            PathComponent::Normal(_) => Err(AppError::StatStr("Cannot find specified path")),
        }
    }

    /// The display text of row `idx`: its connector drawing, the expanded or
    /// collapsed folder marker, one space, and the node's name.
    pub fn row_text(&self, idx: usize) -> (r: String)
        requires
            self.inv(),
            idx < self.tv_items@.len(),
        ensures
            r@ == row_text_model(self.tree@, self.tv_items@[idx as int]@),
    {
        proof {
            assert(rows(self.tv_items@)[idx as int] == self.tv_items@[idx as int]@);
            assert(self.tv_items@[idx as int]@.node < self.tree@.len());
        }
        let node = self.tv_items[idx].tree_node;
        proof {
            assert(self.tv_items@[idx as int]@.node == node as int);
        }
        let mut s = self.tv_items[idx].drawing.clone();
        if self.tree.is_loaded(node) {
            s.append("📂");
            proof {
                reveal_strlit("📂");
                assert("📂"@ =~= seq!['📂']);
            }
        } else {
            s.append("📁");
            proof {
                reveal_strlit("📁");
                assert("📁"@ =~= seq!['📁']);
            }
        }
        s.append(" ");
        proof {
            reveal_strlit(" ");
            assert(" "@ =~= seq![' ']);
        }
        s.append(self.tree.nodes[node].file_node.name.as_str());
        s
    }
}

/// Resolution of a whole parsed absolute path against a session: a leading
/// prefix must equal the session's own and be followed by the root
/// separator; a leading root separator starts the walk at the session root;
/// anything else resolves to nothing.
pub open spec fn app_resolve_model(
    pfx: Option<Seq<char>>,
    t: Seq<NodeModel>,
    comps: Seq<CompModel>,
) -> ResolveModel {
    if comps.len() == 0 {
        ResolveModel::NotFound
    } else {
        match comps[0] {
            CompModel::Prefix(p) => if pfx == Some(p) {
                if comps.len() >= 2 && comps[1] is RootDir {
                    resolve_model(t, 0, comps, 2)
                } else {
                    ResolveModel::NotFound
                }
            } else {
                ResolveModel::NotFound
            },
            CompModel::RootDir => resolve_model(t, 0, comps, 1),
            CompModel::Normal(_) => ResolveModel::NotFound,
        }
    }
}

/// Path round-trip at the session level: a canonically reachable node
/// resolves back to itself from the parsed components of its own path,
/// whatever prefix the session carries — the components of an absolute path
/// under the root start with the root separator, which every session
/// accepts.
pub proof fn lemma_startup_round_trip(pfx: Option<Seq<char>>, t: Seq<NodeModel>, i: int)
    requires
        wf(t),
        0 <= i < t.len(),
        canonical(t, i),
    ensures
        app_resolve_model(pfx, t, seg_comps(t, i)) == ResolveModel::Found(i),
{
    lemma_path_round_trip(t, i);
}

/// The display text of one row: drawing, folder marker (open while the
/// node's snapshot is loaded), a space, and the name.
pub open spec fn row_text_model(t: Seq<NodeModel>, row: RowModel) -> Seq<char> {
    row.drawing + (if loaded(t, row.node) {
        seq!['📂']
    } else {
        seq!['📁']
    }) + seq![' '] + t[row.node].name
}

} // verus!
