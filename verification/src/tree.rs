//! The indexed tree: directories and the files admitted into them.

use vstd::prelude::*;

verus! {

/// The mathematical value of a node: a file by its path, or a directory.
pub enum NodeView {
    File(Seq<char>),
    Directory(DirectoryView),
}

/// The mathematical value of a directory: its own path and the values of its
/// entries, in order.
pub struct DirectoryView {
    pub this: Seq<char>,
    pub entries: Seq<NodeView>,
}

/// A directory of the index: its own path and its entries in order.
#[derive(Debug)]
pub struct Directory {
    this: String,
    entries: Vec<FsNode>,
}

/// A node of the index.
#[derive(Debug)]
pub enum FsNode {
    File(String),
    Directory(Directory),
}

impl View for FsNode {
    type V = NodeView;

    open spec fn view(&self) -> NodeView
        decreases self,
    {
        match self {
            FsNode::File(path) => NodeView::File(path@),
            FsNode::Directory(dir) => NodeView::Directory(dir@),
        }
    }
}

impl View for Directory {
    type V = DirectoryView;

    closed spec fn view(&self) -> DirectoryView
        decreases self,
    {
        DirectoryView {
            this: self.this@,
            entries: Seq::new(
                self.entries.len() as nat,
                |i: int|
                    if 0 <= i < self.entries.len() {
                        self.entries[i]@
                    } else {
                        NodeView::File(Seq::empty())
                    },
            ),
        }
    }
}

/// The files below `node`, each as a file node, in the order a walk from the
/// top meets them.
pub open spec fn leaves(node: NodeView) -> Seq<NodeView>
    decreases node, 0int,
{
    match node {
        NodeView::File(_) => seq![node],
        NodeView::Directory(dir) => leaves_upto(dir.entries, dir.entries.len() as int),
    }
}

/// The files below the first `k` of `nodes`.
pub open spec fn leaves_upto(nodes: Seq<NodeView>, k: int) -> Seq<NodeView>
    decreases nodes, k,
{
    if 0 < k <= nodes.len() {
        leaves_upto(nodes, k - 1) + leaves(nodes[k - 1])
    } else {
        Seq::empty()
    }
}

/// The files below `nodes`.
pub open spec fn leaves_of(nodes: Seq<NodeView>) -> Seq<NodeView> {
    leaves_upto(nodes, nodes.len() as int)
}

/// The paths of the directories at and below `node`, in the order a walk
/// from the top meets them.
pub open spec fn branches(node: NodeView) -> Seq<Seq<char>>
    decreases node, 0int,
{
    match node {
        NodeView::File(_) => Seq::empty(),
        NodeView::Directory(dir) => seq![dir.this] + branches_upto(
            dir.entries,
            dir.entries.len() as int,
        ),
    }
}

/// The paths of the directories at and below the first `k` of `nodes`.
pub open spec fn branches_upto(nodes: Seq<NodeView>, k: int) -> Seq<Seq<char>>
    decreases nodes, k,
{
    if 0 < k <= nodes.len() {
        branches_upto(nodes, k - 1) + branches(nodes[k - 1])
    } else {
        Seq::empty()
    }
}

/// The paths of the directories at and below `nodes`.
pub open spec fn branches_of(nodes: Seq<NodeView>) -> Seq<Seq<char>> {
    branches_upto(nodes, nodes.len() as int)
}

/// The files below the first `k` nodes are the same wherever the first `k`
/// nodes are the same.
pub proof fn lemma_leaves_of_prefix(a: Seq<NodeView>, b: Seq<NodeView>, k: int)
    requires
        0 <= k <= a.len(),
        k <= b.len(),
        forall|i: int| 0 <= i < k ==> a[i] == b[i],
    ensures
        leaves_upto(a, k) == leaves_upto(b, k),
    decreases k,
{
    if k > 0 {
        lemma_leaves_of_prefix(a, b, k - 1);
    }
}

/// The files below a row of nodes with one more node behind it.
pub proof fn lemma_leaves_of_push(nodes: Seq<NodeView>, node: NodeView)
    ensures
        leaves_of(nodes.push(node)) == leaves_of(nodes) + leaves(node),
{
    lemma_leaves_of_prefix(nodes.push(node), nodes, nodes.len() as int);
}

/// The directories below the first `k` nodes are the same wherever the first
/// `k` nodes are the same.
pub proof fn lemma_branches_of_prefix(a: Seq<NodeView>, b: Seq<NodeView>, k: int)
    requires
        0 <= k <= a.len(),
        k <= b.len(),
        forall|i: int| 0 <= i < k ==> a[i] == b[i],
    ensures
        branches_upto(a, k) == branches_upto(b, k),
    decreases k,
{
    if k > 0 {
        lemma_branches_of_prefix(a, b, k - 1);
    }
}

/// The directories below a row of nodes with one more node behind it.
pub proof fn lemma_branches_of_push(nodes: Seq<NodeView>, node: NodeView)
    ensures
        branches_of(nodes.push(node)) == branches_of(nodes) + branches(node),
{
    lemma_branches_of_prefix(nodes.push(node), nodes, nodes.len() as int);
}

impl Clone for FsNode {
    fn clone(&self) -> (copy: FsNode)
        ensures
            copy@ == self@,
        decreases self,
    {
        match self {
            FsNode::File(path) => FsNode::File(path.clone()),
            FsNode::Directory(dir) => FsNode::Directory(dir.clone()),
        }
    }
}

impl Clone for Directory {
    fn clone(&self) -> (copy: Directory)
        ensures
            copy@ == self@,
        decreases self,
    {
        let mut entries: Vec<FsNode> = Vec::new();
        let mut i: usize = 0;
        while i < self.entries.len()
            invariant
                i <= self.entries.len(),
                entries.len() == i,
                forall|k: int| 0 <= k < i ==> (#[trigger] entries[k])@ == self.entries[k]@,
            decreases self.entries.len() - i,
        {
            entries.push(self.entries[i].clone());
            i += 1;
        }
        let copy = Directory { this: self.this.clone(), entries };
        assert(copy@.entries =~= self@.entries);
        copy
    }
}

impl Directory {
    /// A directory at `path` with no entries yet.
    pub fn new(path: String) -> (dir: Directory)
        ensures
            dir@ == (DirectoryView { this: path@, entries: Seq::empty() }),
    {
        let dir = Directory { this: path, entries: Vec::new() };
        assert(dir@.entries =~= Seq::empty());
        dir
    }

    /// Appends `node` behind the entries already there.
    pub fn push(&mut self, node: FsNode)
        ensures
            final(self)@ == (DirectoryView {
                this: old(self)@.this,
                entries: old(self)@.entries.push(node@),
            }),
    {
        self.entries.push(node);
        assert(self@.entries =~= old(self)@.entries.push(node@));
    }

    /// The directory's own path.
    pub fn path(&self) -> (path: &str)
        ensures
            path@ == self@.this,
    {
        self.this.as_str()
    }

    /// The directory's entries, in order.
    #[must_use]
    pub fn entries(&self) -> (entries: &[FsNode])
        ensures
            entries@.len() == self@.entries.len(),
            forall|i: int| 0 <= i < entries@.len() ==> (#[trigger] entries@[i])@ == self@.entries[i],
    {
        self.entries.as_slice()
    }
}

} // verus!
