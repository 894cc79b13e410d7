//! The depth-first traversal capability.
//!
//! Any container shape (the root, a folder) exposes its ordered children;
//! a generic walk visits a container and every node beneath it exactly once,
//! in pre-order: the node itself first, then each child's subtree in sibling
//! order. The walk reads the tree only, and returns the visited identifiers
//! in visit order.

use crate::model::{bms_view, Bookmark, BookmarkFolder, BookmarkRoot, Guid, NodeVal};
use vstd::prelude::*;

verus! {

/// The identifiers of a node and all its descendants, the node itself
/// first, then the children's subtrees in sibling order.
pub open spec fn preorder_node(n: NodeVal) -> Seq<Seq<char>>
    decreases n,
{
    match n {
        NodeVal::Folder { env, children } => seq![env.guid] + preorder_forest(children),
        NodeVal::Entry { env, uri, tags, charset, icon_uri } => seq![env.guid],
        NodeVal::Separator { env } => seq![env.guid],
    }
}

/// The identifiers of a sequence of subtrees, in sibling order.
pub open spec fn preorder_forest(children: Seq<NodeVal>) -> Seq<Seq<char>>
    decreases children,
{
    if children.len() == 0 {
        Seq::<Seq<char>>::empty()
    } else {
        preorder_node(children[0]) + preorder_forest(children.subrange(1, children.len() as int))
    }
}

/// The number of nodes of a subtree, the node itself included.
pub open spec fn node_count(n: NodeVal) -> nat
    decreases n,
{
    match n {
        NodeVal::Folder { env, children } => 1 + forest_count(children),
        NodeVal::Entry { env, uri, tags, charset, icon_uri } => 1,
        NodeVal::Separator { env } => 1,
    }
}

/// The number of nodes of a sequence of subtrees.
pub open spec fn forest_count(children: Seq<NodeVal>) -> nat
    decreases children,
{
    if children.len() == 0 {
        0
    } else {
        node_count(children[0]) + forest_count(children.subrange(1, children.len() as int))
    }
}

/// Law: a full walk of a subtree of N nodes visits exactly N nodes — the
/// visit list is as long as the subtree is large.
pub proof fn lemma_preorder_count(n: NodeVal)
    ensures
        preorder_node(n).len() == node_count(n),
    decreases n,
{
    match n {
        NodeVal::Folder { env, children } => {
            lemma_preorder_forest_count(children);
        },
        _ => {},
    }
}

/// Law: a full walk of a sequence of subtrees visits exactly as many nodes
/// as the subtrees hold together.
pub proof fn lemma_preorder_forest_count(children: Seq<NodeVal>)
    ensures
        preorder_forest(children).len() == forest_count(children),
    decreases children,
{
    if children.len() > 0 {
        lemma_preorder_count(children[0]);
        lemma_preorder_forest_count(children.subrange(1, children.len() as int));
    }
}

/// The views of a vector of identifiers.
pub open spec fn guid_views(gs: Seq<Guid>) -> Seq<Seq<char>> {
    gs.map_values(|g: Guid| g@)
}

/// The capability of owning an ordered sequence of child nodes: the root
/// and every folder expose it, and the generic walk needs nothing more.
pub trait Explorable {
    /// The shapes of the children, in order.
    spec fn children_view(&self) -> Seq<NodeVal>;

    /// The characters of this container's own identifier.
    spec fn guid_view(&self) -> Seq<char>;

    /// The ordered children this container owns.
    fn get_children(&self) -> (r: &Vec<Bookmark>)
        ensures
            bms_view(r@) == self.children_view(),
    ;

    /// This container's own identifier.
    fn guid(&self) -> (r: &Guid)
        ensures
            r@ == self.guid_view(),
    ;
}

impl Explorable for BookmarkRoot {
    open spec fn children_view(&self) -> Seq<NodeVal> {
        bms_view(self.children@)
    }

    open spec fn guid_view(&self) -> Seq<char> {
        self.envelope.guid@
    }

    fn get_children(&self) -> (r: &Vec<Bookmark>) {
        &self.children
    }

    fn guid(&self) -> (r: &Guid) {
        &self.envelope.guid
    }
}

impl Explorable for BookmarkFolder {
    open spec fn children_view(&self) -> Seq<NodeVal> {
        bms_view(self.children@)
    }

    open spec fn guid_view(&self) -> Seq<char> {
        self.envelope.guid@
    }

    fn get_children(&self) -> (r: &Vec<Bookmark>) {
        &self.children
    }

    fn guid(&self) -> (r: &Guid) {
        &self.envelope.guid
    }
}

/// Visit `b` and every node beneath it, depth first, appending each visited
/// identifier to `out`.
#[verifier::loop_isolation(false)]
fn explore_node(b: &Bookmark, out: &mut Vec<Guid>)
    ensures
        guid_views(final (out)@) == guid_views(old(out)@) + preorder_node(b@),
    decreases *b,
{
    let ghost entry_views = guid_views(out@);
    match b {
        Bookmark::Folder(f) => {
            out.push(f.envelope.guid.clone());
            proof {
                crate::model::lemma_bms_view_index(f.children@);
                assert(guid_views(out@) =~= entry_views + seq![f.envelope.guid@]);
            }
            let ghost cv = bms_view(f.children@);
            proof {
                assert(cv.subrange(0, cv.len() as int) =~= cv);
                assert(guid_views(out@) + preorder_forest(cv) =~= entry_views + preorder_node(b@));
            }
            let mut i: usize = 0;
            while i < f.children.len()
                invariant
                    i <= f.children@.len(),
                    guid_views(out@) + preorder_forest(cv.subrange(i as int, cv.len() as int))
                        == entry_views + preorder_node(b@),
                decreases f.children@.len() - i,
            {
                proof {
                    assert(*b is Folder);
                    assert((*b)->Folder_0 == *f);
                    assert(decreases_to!(*b => b->Folder_0));
                    assert(decreases_to!(*f => f.children));
                    assert(decreases_to!(f.children => f.children@));
                    assert(decreases_to!(f.children@ => f.children@[i as int]));
                    let suffix = cv.subrange(i as int, cv.len() as int);
                    assert(suffix[0] == cv[i as int]);
                    assert(suffix.subrange(1, suffix.len() as int) =~= cv.subrange(
                        i + 1,
                        cv.len() as int,
                    ));
                    assert(preorder_forest(suffix) == preorder_node(cv[i as int])
                        + preorder_forest(cv.subrange(i + 1, cv.len() as int)));
                }
                explore_node(&f.children[i], out);
                i = i + 1;
            }
            proof {
                assert(cv.subrange(cv.len() as int, cv.len() as int)
                    =~= Seq::<NodeVal>::empty());
                assert(guid_views(out@) =~= entry_views + preorder_node(b@));
            }
        },
        Bookmark::Entry(e) => {
            out.push(e.envelope.guid.clone());
            proof {
                assert(guid_views(out@) =~= entry_views + preorder_node(b@));
            }
        },
        Bookmark::Separator(s) => {
            out.push(s.envelope.guid.clone());
            proof {
                assert(guid_views(out@) =~= entry_views + preorder_node(b@));
            }
        },
    }
}

/// Walk any container depth first: the container itself is visited first,
/// then every node beneath it, parents before their children, children in
/// their sibling order; every node is visited exactly once. The visited
/// identifiers come back in visit order.
#[verifier::loop_isolation(false)]
pub fn explore_bookmarks<T: Explorable>(bookmark: &T) -> (r: Vec<Guid>)
    ensures
        guid_views(r@) == seq![bookmark.guid_view()] + preorder_forest(bookmark.children_view()),
{
    let mut out: Vec<Guid> = Vec::new();
    let g = bookmark.guid();
    out.push(g.clone());
    proof {
        assert(guid_views(out@) =~= seq![bookmark.guid_view()]);
    }
    let children = bookmark.get_children();
    let ghost cv = bookmark.children_view();
    proof {
        crate::model::lemma_bms_view_index(children@);
        assert(cv.subrange(0, cv.len() as int) =~= cv);
        assert(guid_views(out@) + preorder_forest(cv) =~= seq![bookmark.guid_view()]
            + preorder_forest(cv));
    }
    let mut i: usize = 0;
    while i < children.len()
        invariant
            i <= children@.len(),
            cv.len() == children@.len(),
            guid_views(out@) + preorder_forest(cv.subrange(i as int, cv.len() as int)) == seq![
                bookmark.guid_view(),
            ] + preorder_forest(cv),
        decreases children@.len() - i,
    {
        proof {
            let suffix = cv.subrange(i as int, cv.len() as int);
            assert(suffix[0] == cv[i as int]);
            assert(cv[i as int] == bms_view(children@)[i as int]);
            assert(suffix.subrange(1, suffix.len() as int) =~= cv.subrange(
                i + 1,
                cv.len() as int,
            ));
            assert(preorder_forest(suffix) == preorder_node(cv[i as int]) + preorder_forest(
                cv.subrange(i + 1, cv.len() as int),
            ));
        }
        explore_node(&children[i], &mut out);
        i = i + 1;
    }
    proof {
        assert(cv.subrange(cv.len() as int, cv.len() as int) =~= Seq::<NodeVal>::empty());
        assert(guid_views(out@) =~= seq![bookmark.guid_view()] + preorder_forest(cv));
    }
    out
}

} // verus!
