//! Outlines: a list of titles with levels, folded into a tree.
use super::text::copy_str;
use vstd::prelude::*;

verus! {

/// A title, its nesting level (zero at the top) and its page.
#[derive(Debug, Clone)]
pub struct FlatOutline {
    pub title: String,
    pub level: usize,
    pub page: usize,
}

/// A node of an outline.
#[derive(Debug)]
pub struct OutlineNode {
    pub title: String,
    pub page: usize,
    pub children: Vec<OutlineNode>,
}

/// A title and its page.
pub type Entry = (Seq<char>, usize);

/// A node of an outline tree.
pub ghost struct Node {
    pub entry: Entry,
    pub children: Seq<Node>,
}

/// The tree of a node.
pub open spec fn tree_of(n: OutlineNode) -> Node
    decreases n,
{
    Node { entry: (n.title@, n.page), children: trees_of(n.children@) }
}

/// The trees of a list of nodes.
pub open spec fn trees_of(ns: Seq<OutlineNode>) -> Seq<Node>
    decreases ns,
{
    Seq::new(
        ns.len(),
        |i: int|
            if 0 <= i < ns.len() {
                tree_of(ns[i])
            } else {
                arbitrary()
            },
    )
}

/// Append `leaf` below the last node at each of `depth` levels, as far down as
/// there are nodes.
pub open spec fn attached(ns: Seq<Node>, depth: nat, leaf: Node) -> Seq<Node>
    decreases depth,
{
    if depth == 0 || ns.len() == 0 {
        ns.push(leaf)
    } else {
        let last = ns.last();
        ns.drop_last().push(
            Node {
                entry: last.entry,
                children: attached(last.children, (depth - 1) as nat, leaf),
            },
        )
    }
}

/// The entries of the last node at each level.
pub open spec fn open_path(ns: Seq<Node>) -> Seq<Entry>
    decreases ns,
{
    if ns.len() == 0 {
        Seq::empty()
    } else {
        seq![ns.last().entry] + open_path(ns.last().children)
    }
}

pub open spec fn leaf(e: Entry) -> Node {
    Node { entry: e, children: Seq::empty() }
}

pub open spec fn entry(flat: Seq<FlatOutline>, i: int) -> Entry {
    (flat[i].title@, flat[i].page)
}

/// The last title up to the `i`th that has a lower level than `level`, or -1.
pub open spec fn nearest_lower(flat: Seq<FlatOutline>, level: usize, i: int) -> int
    decreases i + 1,
{
    if i < 0 {
        -1
    } else if flat[i].level < level {
        i
    } else {
        nearest_lower(flat, level, i - 1)
    }
}

/// The title that the `i`th goes below, or -1 for none.
pub open spec fn parent(flat: Seq<FlatOutline>, i: int) -> int {
    nearest_lower(flat, flat[i].level, i - 1)
}

/// The `i`th title and those that it is below, from the top.
pub open spec fn ancestry(flat: Seq<FlatOutline>, i: int) -> Seq<int>
    decreases i + 1,
{
    if i < 0 {
        Seq::empty()
    } else {
        proof {
            lemma_nearest_lower(flat, flat[i].level, i - 1);
        }
        ancestry(flat, parent(flat, i)).push(i)
    }
}

/// The tree of the first `n` titles.
pub open spec fn folded(flat: Seq<FlatOutline>, n: int) -> Seq<Node>
    decreases n,
{
    if n <= 0 {
        Seq::empty()
    } else {
        attached(
            folded(flat, n - 1),
            (ancestry(flat, n - 1).len() - 1) as nat,
            leaf(entry(flat, n - 1)),
        )
    }
}

// ── parents ─────────────────────────────────────────────────────────────────

pub proof fn lemma_nearest_lower(flat: Seq<FlatOutline>, level: usize, i: int)
    requires
        i >= -1,
    ensures
        ({
            let p = nearest_lower(flat, level, i);
            &&& -1 <= p <= i
            &&& p >= 0 ==> flat[p].level < level
            &&& forall|k: int| p < k <= i ==> (#[trigger] flat[k]).level >= level
        }),
    decreases i + 1,
{
    if i >= 0 && flat[i].level >= level {
        lemma_nearest_lower(flat, level, i - 1);
    }
}

/// A title goes below the nearest one before it that has a lower level, or to
/// the top where there is none; so one whose level jumps ahead goes below the
/// title just before it.
pub proof fn law_parent_is_nearest_lower(flat: Seq<FlatOutline>, i: int)
    requires
        0 <= i < flat.len(),
    ensures
        ({
            let p = parent(flat, i);
            &&& -1 <= p < i
            &&& p >= 0 ==> flat[p].level < flat[i].level
            &&& forall|k: int| p < k < i ==> (#[trigger] flat[k]).level >= flat[i].level
            &&& i > 0 && flat[i - 1].level < flat[i].level ==> p == i - 1
        }),
{
    lemma_nearest_lower(flat, flat[i].level, i - 1);
}

/// Titles of no lower level do not count.
proof fn lemma_skip(flat: Seq<FlatOutline>, level: usize, lo: int, hi: int)
    requires
        -1 <= lo <= hi,
        forall|k: int| lo < k <= hi ==> (#[trigger] flat[k]).level >= level,
    ensures
        nearest_lower(flat, level, hi) == nearest_lower(flat, level, lo),
    decreases hi - lo,
{
    if lo < hi {
        lemma_skip(flat, level, lo, hi - 1);
    }
}

/// What is nearest below a title of no lower level is nearest below its parent.
proof fn lemma_climb(flat: Seq<FlatOutline>, level: usize, i: int)
    requires
        i >= 0,
        flat[i].level >= level,
    ensures
        -1 <= parent(flat, i) < i,
        nearest_lower(flat, level, i) == nearest_lower(flat, level, parent(flat, i)),
{
    lemma_nearest_lower(flat, flat[i].level, i - 1);
    lemma_skip(flat, level, parent(flat, i), i);
}

proof fn lemma_ancestry_prefix(flat: Seq<FlatOutline>, level: usize, i: int)
    requires
        i >= -1,
    ensures
        ancestry(flat, nearest_lower(flat, level, i)).is_prefix_of(ancestry(flat, i)),
    decreases i + 1,
{
    if i >= 0 && flat[i].level >= level {
        lemma_climb(flat, level, i);
        lemma_ancestry_prefix(flat, level, parent(flat, i));
        let a = ancestry(flat, nearest_lower(flat, level, i));
        let b = ancestry(flat, parent(flat, i));
        assert(a.is_prefix_of(b));
        assert(a =~= b.push(i).subrange(0, a.len() as int));
    }
}

proof fn lemma_open_path(ns: Seq<Node>, depth: nat, e: Entry)
    requires
        depth <= open_path(ns).len(),
    ensures
        open_path(attached(ns, depth, leaf(e))) == open_path(ns).take(depth as int).push(e),
    decreases depth,
{
    assert(open_path(Seq::<Node>::empty()) =~= Seq::empty());
    if depth == 0 || ns.len() == 0 {
        let m = ns.push(leaf(e));
        assert(m.last() == leaf(e));
        assert(open_path(m) =~= seq![e]);
        assert(open_path(ns).take(depth as int).push(e) =~= seq![e]);
    } else {
        let last = ns.last();
        lemma_open_path(last.children, (depth - 1) as nat, e);
        assert(open_path(attached(ns, depth, leaf(e))) =~= open_path(ns).take(
            depth as int,
        ).push(e));
    }
}

/// In the tree, each title hangs below its parent, and that below its own, up
/// to the top: after a title is folded in, the last nodes of the levels are
/// the titles of its ancestry.
pub proof fn law_fold_follows_parents(flat: Seq<FlatOutline>, n: int)
    requires
        0 <= n <= flat.len(),
    ensures
        open_path(folded(flat, n)) == ancestry(flat, n - 1).map_values(
            |i: int| entry(flat, i),
        ),
    decreases n,
{
    let f = |i: int| entry(flat, i);
    if n == 0 {
        assert(open_path(folded(flat, n)) =~= ancestry(flat, n - 1).map_values(f));
    } else {
        law_fold_follows_parents(flat, n - 1);
        lemma_nearest_lower(flat, flat[n - 1].level, n - 2);
        lemma_ancestry_prefix(flat, flat[n - 1].level, n - 2);
        let up = ancestry(flat, parent(flat, n - 1));
        let before = folded(flat, n - 1);
        lemma_open_path(before, up.len(), entry(flat, n - 1));
        assert(open_path(before).take(up.len() as int) =~= up.map_values(f));
        assert(ancestry(flat, n - 1).map_values(f) =~= up.map_values(f).push(f(n - 1)));
    }
}

// ── reading order ───────────────────────────────────────────────────────────

/// The entries of a forest, each node before its children.
pub open spec fn preorder(ns: Seq<Node>) -> Seq<Entry>
    decreases ns,
{
    if ns.len() == 0 {
        Seq::empty()
    } else {
        let last = ns.last();
        preorder(ns.drop_last()) + seq![last.entry] + preorder(last.children)
    }
}

proof fn lemma_preorder_push(ns: Seq<Node>, e: Entry)
    ensures
        preorder(ns.push(leaf(e))) == preorder(ns).push(e),
{
    let m = ns.push(leaf(e));
    assert(m.drop_last() =~= ns);
    assert(preorder(Seq::<Node>::empty()) =~= Seq::empty());
    assert(preorder(m) =~= preorder(ns).push(e));
}

proof fn lemma_preorder_attached(ns: Seq<Node>, depth: nat, e: Entry)
    ensures
        preorder(attached(ns, depth, leaf(e))) == preorder(ns).push(e),
    decreases depth,
{
    if depth == 0 || ns.len() == 0 {
        lemma_preorder_push(ns, e);
    } else {
        let last = ns.last();
        let kids = attached(last.children, (depth - 1) as nat, leaf(e));
        lemma_preorder_attached(last.children, (depth - 1) as nat, e);
        let m = attached(ns, depth, leaf(e));
        assert(m.drop_last() =~= ns.drop_last());
        assert(m.last() == Node { entry: last.entry, children: kids });
        assert(preorder(m) =~= preorder(ns).push(e));
    }
}

/// Folding keeps every title, in order: none is dropped, whatever its level.
pub proof fn law_fold_keeps_order(flat: Seq<FlatOutline>, n: int)
    requires
        0 <= n <= flat.len(),
    ensures
        preorder(folded(flat, n)) == Seq::new(n as nat, |i: int| entry(flat, i)),
    decreases n,
{
    if n == 0 {
        assert(preorder(folded(flat, n)) =~= Seq::new(0, |i: int| entry(flat, i)));
    } else {
        law_fold_keeps_order(flat, n - 1);
        lemma_preorder_attached(
            folded(flat, n - 1),
            (ancestry(flat, n - 1).len() - 1) as nat,
            entry(flat, n - 1),
        );
        assert(preorder(folded(flat, n)) =~= Seq::new(n as nat, |i: int| entry(flat, i)));
    }
}

// ── folding ─────────────────────────────────────────────────────────────────

/// Append a node below the last node at each of `depth` levels, as far down as
/// there are nodes.
fn walk_and_push(ns: &mut Vec<OutlineNode>, depth: usize, node: OutlineNode)
    requires
        node.children@.len() == 0,
    ensures
        trees_of(final(ns)@) == attached(trees_of(old(ns)@), depth as nat, tree_of(node)),
    decreases depth,
{
    let ghost ns0 = ns@;
    let ghost t0 = trees_of(ns0);
    if depth == 0 || ns.len() == 0 {
        ns.push(node);
        assert(trees_of(ns@) =~= t0.push(tree_of(node)));
    } else {
        let mut last: OutlineNode = match ns.pop() {
            Some(n) => n,
            None => {
                return;
            },
        };
        let ghost k = ns0.last();
        assert(t0.last() == tree_of(k));
        walk_and_push(&mut last.children, depth - 1, node);
        let ghost done = last;
        ns.push(last);
        proof {
            let goal = attached(t0, depth as nat, tree_of(node));
            assert(goal.last() == tree_of(done));
            assert(trees_of(ns@) =~= goal);
        }
    }
}

/// Fold a list of titles with levels into a tree. A title goes below the
/// nearest title before it of a lower level; one whose level jumps ahead goes
/// as deep as the path is open.
pub fn fold_outline(flat: &[FlatOutline]) -> (roots: Vec<OutlineNode>)
    ensures
        trees_of(roots@) == folded(flat@, flat@.len() as int),
{
    let mut roots: Vec<OutlineNode> = Vec::new();
    let mut path: Vec<usize> = Vec::new();
    let mut i: usize = 0;
    assert(trees_of(roots@) =~= folded(flat@, 0));
    assert(path@.map_values(|k: usize| k as int) =~= ancestry(flat@, -1));
    while i < flat.len()
        invariant
            i <= flat@.len(),
            trees_of(roots@) == folded(flat@, i as int),
            path@.map_values(|k: usize| k as int) == ancestry(flat@, i - 1),
            forall|k: int| 0 <= k < path@.len() ==> #[trigger] path@[k] < i,
        decreases flat.len() - i,
    {
        let item: &FlatOutline = &flat[i];
        let ghost mut at: int = i - 1;
        while path.len() > 0 && flat[path[path.len() - 1]].level >= item.level
            invariant
                i < flat@.len(),
                *item == flat@[i as int],
                -1 <= at < i,
                forall|k: int| 0 <= k < path@.len() ==> #[trigger] path@[k] < i,
                path@.map_values(|k: usize| k as int) == ancestry(flat@, at),
                nearest_lower(flat@, item.level, i - 1) == nearest_lower(
                    flat@,
                    item.level,
                    at,
                ),
            decreases path.len(),
        {
            let ghost up = ancestry(flat@, at);
            proof {
                assert(up.last() == path@.last() as int);
                lemma_climb(flat@, item.level, at);
                at = parent(flat@, at);
                assert(up.drop_last() =~= ancestry(flat@, at));
            }
            path.pop();
            assert(path@.map_values(|k: usize| k as int) =~= up.drop_last());
        }
        proof {
            let up = path@.map_values(|k: usize| k as int);
            if path@.len() > 0 {
                assert(up.last() == path@.last() as int);
                assert(at >= 0);
            } else {
                assert(at < 0);
            }
            assert(parent(flat@, i as int) == at);
        }
        let node = OutlineNode {
            title: copy_str(item.title.as_str()),
            page: item.page,
            children: Vec::new(),
        };
        assert(trees_of(node.children@) =~= Seq::empty());
        walk_and_push(&mut roots, path.len(), node);
        path.push(i);
        assert(path@.map_values(|k: usize| k as int) =~= ancestry(flat@, i as int));
        i = i + 1;
    }
    roots
}

} // verus!
