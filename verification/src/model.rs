//! The node model: the record shapes of a bookmark export.
//!
//! A document is one root folder owning an ordered tree of nodes; every node
//! is a folder, a link entry or a separator, and all four shapes share a
//! common envelope of identifier, title, sibling index, two timestamps, an
//! internal id and a type code. The whole tree is immutable once decoded.

use crate::tags::{tagseq_wf, Tags};
use crate::timestamp::Timestamp;
use vstd::prelude::*;

verus! {

/// An opaque identifier naming a node, preserved verbatim.
#[derive(Debug)]
pub struct Guid(pub String);

impl View for Guid {
    type V = Seq<char>;

    open spec fn view(&self) -> Seq<char> {
        self.0@
    }
}

impl Clone for Guid {
    fn clone(&self) -> (r: Self)
        ensures
            r@ == self@,
    {
        Guid(self.0.clone())
    }
}

/// The fields every node shape carries.
#[derive(Debug)]
pub struct Envelope {
    pub guid: Guid,
    pub title: String,
    pub index: usize,
    pub date_added: Timestamp,
    pub last_modified: Timestamp,
    pub id: usize,
    pub type_code: usize,
}

/// The shape of an envelope: timestamps as microsecond counts.
pub struct EnvelopeVal {
    pub guid: Seq<char>,
    pub title: Seq<char>,
    pub index: int,
    pub date_added: int,
    pub last_modified: int,
    pub id: int,
    pub type_code: int,
}

impl View for Envelope {
    type V = EnvelopeVal;

    open spec fn view(&self) -> EnvelopeVal {
        EnvelopeVal {
            guid: self.guid@,
            title: self.title@,
            index: self.index as int,
            date_added: self.date_added.as_micros(),
            last_modified: self.last_modified.as_micros(),
            id: self.id as int,
            type_code: self.type_code as int,
        }
    }
}

impl Envelope {
    /// The representation is well-formed: both timestamps carry a fraction
    /// below one second and fit the wire's 64-bit count.
    pub open spec fn rep_wf(self) -> bool {
        self.date_added.wf() && self.last_modified.wf()
    }
}

/// A well-formed envelope shape: the integers fit both their wire encodings
/// and the in-memory machine words.
pub open spec fn env_wf(e: EnvelopeVal) -> bool {
    &&& 0 <= e.index <= i64::MAX && e.index <= usize::MAX
    &&& 0 <= e.id <= i64::MAX && e.id <= usize::MAX
    &&& 0 <= e.type_code <= i64::MAX && e.type_code <= usize::MAX
    &&& i64::MIN <= e.date_added <= i64::MAX
    &&& i64::MIN <= e.last_modified <= i64::MAX
}

/// The shape of a child node.
pub enum NodeVal {
    Folder { env: EnvelopeVal, children: Seq<NodeVal> },
    Entry {
        env: EnvelopeVal,
        uri: Seq<char>,
        tags: Option<Seq<Seq<char>>>,
        charset: Option<Seq<char>>,
        icon_uri: Option<Seq<char>>,
    },
    Separator { env: EnvelopeVal },
}

/// The shape of the outermost document element.
pub struct RootVal {
    pub env: EnvelopeVal,
    pub type_str: Seq<char>,
    pub root: Seq<char>,
    pub children: Seq<NodeVal>,
    pub children_present: bool,
}

/// A child node: exactly one of three shapes, told apart on the wire by the
/// `type` discriminator string.
#[derive(Debug)]
pub enum Bookmark {
    Folder(BookmarkFolder),
    Entry(BookmarkEntry),
    Separator(BookmarkSeparator),
}

/// A folder: ordered children, suppressed from the wire when empty.
#[derive(Debug)]
pub struct BookmarkFolder {
    pub envelope: Envelope,
    pub children: Vec<Bookmark>,
}

/// A link entry: a required location and three optional attributes, each
/// omitted from the wire when absent.
#[derive(Debug)]
pub struct BookmarkEntry {
    pub envelope: Envelope,
    pub uri: String,
    pub tags: Option<Tags>,
    pub charset: Option<String>,
    pub icon_uri: Option<String>,
}

/// A separator: nothing beyond the envelope.
#[derive(Debug)]
pub struct BookmarkSeparator {
    pub envelope: Envelope,
}

/// The outermost document element: a folder plus its root category and a
/// verbatim type string, never itself a child. Whether the wire document
/// spelled out a (possibly empty) children array is remembered, so that an
/// encode reproduces the document exactly.
#[derive(Debug)]
pub struct BookmarkRoot {
    pub envelope: Envelope,
    pub type_str: String,
    pub root: String,
    pub children: Vec<Bookmark>,
    pub children_present: bool,
}

/// The shape of a child node.
pub open spec fn bm_view(b: Bookmark) -> NodeVal
    decreases b,
    via bm_view_dec
{
    match b {
        Bookmark::Folder(f) => NodeVal::Folder { env: f.envelope@, children: bms_view(f.children@) },
        Bookmark::Entry(e) => NodeVal::Entry {
            env: e.envelope@,
            uri: e.uri@,
            tags: match e.tags {
                Option::Some(t) => Option::Some(t.seq_view()),
                Option::None => Option::None,
            },
            charset: match e.charset {
                Option::Some(c) => Option::Some(c@),
                Option::None => Option::None,
            },
            icon_uri: match e.icon_uri {
                Option::Some(u) => Option::Some(u@),
                Option::None => Option::None,
            },
        },
        Bookmark::Separator(s) => NodeVal::Separator { env: s.envelope@ },
    }
}

/// The shapes of a sequence of child nodes.
pub open spec fn bms_view(items: Seq<Bookmark>) -> Seq<NodeVal>
    decreases items,
{
    if items.len() == 0 {
        Seq::<NodeVal>::empty()
    } else {
        seq![bm_view(items[0])] + bms_view(items.subrange(1, items.len() as int))
    }
}

#[via_fn]
proof fn bm_view_dec(b: Bookmark) {
    match b {
        Bookmark::Folder(f) => {
            assert(f == b->Folder_0);
            assert(decreases_to!(b => b->Folder_0));
            assert(decreases_to!(f => f.children));
            assert(decreases_to!(f.children => f.children@));
        },
        _ => {},
    }
}

impl View for Bookmark {
    type V = NodeVal;

    open spec fn view(&self) -> NodeVal {
        bm_view(*self)
    }
}

impl View for BookmarkRoot {
    type V = RootVal;

    open spec fn view(&self) -> RootVal {
        RootVal {
            env: self.envelope@,
            type_str: self.type_str@,
            root: self.root@,
            children: bms_view(self.children@),
            children_present: self.children_present,
        }
    }
}

/// The shapes of a sequence of child nodes, element by element.
pub proof fn lemma_bms_view_index(items: Seq<Bookmark>)
    ensures
        bms_view(items).len() == items.len(),
        forall|i: int|
            #![trigger bms_view(items)[i]]
            #![trigger items[i]]
            0 <= i < items.len() ==> bms_view(items)[i] == bm_view(items[i]),
    decreases items.len(),
{
    if items.len() > 0 {
        let rest = items.subrange(1, items.len() as int);
        lemma_bms_view_index(rest);
        assert forall|i: int| 0 <= i < items.len() implies bms_view(items)[i] == bm_view(
            #[trigger] items[i],
        ) by {
            if i > 0 {
                assert(rest[i - 1] == items[i]);
                assert(bms_view(items)[i] == bms_view(rest)[i - 1]);
            }
        }
    }
}

/// A well-formed node shape: a sound envelope, sound tags where present,
/// and well-formed children.
pub open spec fn node_wf(n: NodeVal) -> bool
    decreases n,
{
    match n {
        NodeVal::Folder { env, children } => env_wf(env) && nodes_wf(children),
        NodeVal::Entry { env, uri, tags, charset, icon_uri } => {
            &&& env_wf(env)
            &&& match tags {
                Option::Some(t) => tagseq_wf(t),
                Option::None => true,
            }
        },
        NodeVal::Separator { env } => env_wf(env),
    }
}

/// Whether every node shape of a sequence is well-formed.
pub open spec fn nodes_wf(items: Seq<NodeVal>) -> bool
    decreases items,
{
    if items.len() == 0 {
        true
    } else {
        node_wf(items[0]) && nodes_wf(items.subrange(1, items.len() as int))
    }
}

/// A well-formed root shape.
pub open spec fn root_wf(r: RootVal) -> bool {
    &&& env_wf(r.env)
    &&& nodes_wf(r.children)
    &&& r.children.len() > 0 ==> r.children_present
}

/// A sequence of node shapes is well-formed exactly when each one is.
pub proof fn lemma_nodes_wf_index(items: Seq<NodeVal>)
    ensures
        nodes_wf(items) <==> forall|i: int| 0 <= i < items.len() ==> node_wf(#[trigger] items[i]),
    decreases items.len(),
{
    if items.len() > 0 {
        let rest = items.subrange(1, items.len() as int);
        lemma_nodes_wf_index(rest);
        assert forall|i: int| 0 <= i < items.len() && nodes_wf(items) implies node_wf(
            #[trigger] items[i],
        ) by {
            if i > 0 {
                assert(rest[i - 1] == items[i]);
            }
        }
        if forall|i: int| 0 <= i < items.len() ==> node_wf(#[trigger] items[i]) {
            assert forall|i: int| 0 <= i < rest.len() implies node_wf(#[trigger] rest[i]) by {
                assert(rest[i] == items[i + 1]);
            }
        }
    }
}

/// The representation behind a node shape is well-formed: every timestamp
/// in the tree carries a sound fraction.
pub open spec fn bm_rep_wf(b: Bookmark) -> bool
    decreases b,
    via bm_rep_wf_dec
{
    match b {
        Bookmark::Folder(f) => f.envelope.rep_wf() && bms_rep_wf(f.children@),
        Bookmark::Entry(e) => e.envelope.rep_wf(),
        Bookmark::Separator(s) => s.envelope.rep_wf(),
    }
}

/// Whether every node of a sequence has a well-formed representation.
pub open spec fn bms_rep_wf(items: Seq<Bookmark>) -> bool
    decreases items,
{
    if items.len() == 0 {
        true
    } else {
        bm_rep_wf(items[0]) && bms_rep_wf(items.subrange(1, items.len() as int))
    }
}

#[via_fn]
proof fn bm_rep_wf_dec(b: Bookmark) {
    match b {
        Bookmark::Folder(f) => {
            assert(f == b->Folder_0);
            assert(decreases_to!(b => b->Folder_0));
            assert(decreases_to!(f => f.children));
            assert(decreases_to!(f.children => f.children@));
        },
        _ => {},
    }
}

/// A sequence of representations is well-formed exactly when each one is.
pub proof fn lemma_bms_rep_wf_index(items: Seq<Bookmark>)
    ensures
        bms_rep_wf(items) <==> forall|i: int|
            0 <= i < items.len() ==> bm_rep_wf(#[trigger] items[i]),
    decreases items.len(),
{
    if items.len() > 0 {
        let rest = items.subrange(1, items.len() as int);
        lemma_bms_rep_wf_index(rest);
        assert forall|i: int| 0 <= i < items.len() && bms_rep_wf(items) implies bm_rep_wf(
            #[trigger] items[i],
        ) by {
            if i > 0 {
                assert(rest[i - 1] == items[i]);
            }
        }
        if forall|i: int| 0 <= i < items.len() ==> bm_rep_wf(#[trigger] items[i]) {
            assert forall|i: int| 0 <= i < rest.len() implies bm_rep_wf(#[trigger] rest[i]) by {
                assert(rest[i] == items[i + 1]);
            }
        }
    }
}

/// A fully well-formed child node value.
pub open spec fn bm_wf(b: Bookmark) -> bool {
    bm_rep_wf(b) && node_wf(bm_view(b))
}

/// A fully well-formed root value.
pub open spec fn bmroot_wf(r: BookmarkRoot) -> bool {
    r.envelope.rep_wf() && bms_rep_wf(r.children@) && root_wf(r@)
}

/// The recoverable decode failure: the document does not have the schema's
/// shape (a missing or unrecognized discriminator, a missing, repeated,
/// unrecognized or mistyped field). No range failure can arise: every wire
/// microsecond count is representable.
#[derive(Debug, PartialEq, Eq, Structural, Clone, Copy)]
pub struct SchemaError;

} // verus!
