//! The serialization contract: decoding a JSON document into the node model
//! and encoding the model back into a document.
//!
//! Decoding is strict: a missing or unrecognized discriminator, a missing,
//! repeated, unrecognized or mistyped field all fail with a schema error, so
//! that whatever decodes also re-encodes to a structurally equal document.
//! Encoding is total over well-formed values and honours the suppression
//! rules: a folder's empty children list and an entry's absent optional
//! fields are omitted, never emitted as null.

use crate::json::{
    jfields, jv_get, jv_has, jview, jviews, lemma_jfields_index, lemma_jv_get_member,
    lemma_jviews_index, Json, JsonVal,
};
use crate::json::{fields_unique, get_field, unique_keys};
use crate::model::{
    bm_rep_wf, bm_view, bm_wf, bmroot_wf, bms_view, env_wf, lemma_bms_rep_wf_index,
    lemma_bms_view_index, lemma_nodes_wf_index, node_wf, Bookmark, BookmarkEntry, BookmarkFolder,
    BookmarkRoot, BookmarkSeparator, Envelope, EnvelopeVal, Guid, NodeVal, RootVal, SchemaError,
};
use crate::tags::{spec_dedup, spec_join, spec_split, Tags};
use crate::timestamp::Timestamp;
use vstd::prelude::*;

verus! {

/// The wire key of the identifier field.
pub open spec fn k_guid() -> Seq<char> {
    "guid"@
}

/// The wire key of the title field.
pub open spec fn k_title() -> Seq<char> {
    "title"@
}

/// The wire key of the sibling-position field.
pub open spec fn k_index() -> Seq<char> {
    "index"@
}

/// The wire key of the creation timestamp.
pub open spec fn k_date_added() -> Seq<char> {
    "dateAdded"@
}

/// The wire key of the modification timestamp.
pub open spec fn k_last_modified() -> Seq<char> {
    "lastModified"@
}

/// The wire key of the internal numeric id.
pub open spec fn k_id() -> Seq<char> {
    "id"@
}

/// The wire key of the numeric type code.
pub open spec fn k_type_code() -> Seq<char> {
    "typeCode"@
}

/// The wire key of the discriminator.
pub open spec fn k_type() -> Seq<char> {
    "type"@
}

/// The wire key of the root category, present on the root alone.
pub open spec fn k_root() -> Seq<char> {
    "root"@
}

/// The wire key of the children array.
pub open spec fn k_children() -> Seq<char> {
    "children"@
}

/// The wire key of an entry's location.
pub open spec fn k_uri() -> Seq<char> {
    "uri"@
}

/// The wire key of an entry's tag string.
pub open spec fn k_tags() -> Seq<char> {
    "tags"@
}

/// The wire key of an entry's character set.
pub open spec fn k_charset() -> Seq<char> {
    "charset"@
}

/// The wire key of an entry's icon location.
pub open spec fn k_icon_uri() -> Seq<char> {
    "iconUri"@
}

/// The discriminator string of folders (and of the root).
pub open spec fn t_container() -> Seq<char> {
    "text/x-moz-place-container"@
}

/// The discriminator string of link entries.
pub open spec fn t_entry() -> Seq<char> {
    "text/x-moz-place"@
}

/// The discriminator string of separators.
pub open spec fn t_separator() -> Seq<char> {
    "text/x-moz-place-separator"@
}

/// The encoded envelope fields, in wire order.
pub open spec fn enc_env(e: EnvelopeVal) -> Seq<(Seq<char>, JsonVal)> {
    seq![
        (k_guid(), JsonVal::Str(e.guid)),
        (k_title(), JsonVal::Str(e.title)),
        (k_index(), JsonVal::Int(e.index)),
        (k_date_added(), JsonVal::Int(e.date_added)),
        (k_last_modified(), JsonVal::Int(e.last_modified)),
        (k_id(), JsonVal::Int(e.id)),
        (k_type_code(), JsonVal::Int(e.type_code)),
    ]
}

/// The encoded document of a child node: the envelope, the discriminator,
/// then the variant's own fields, empty children and absent optionals
/// suppressed.
pub open spec fn enc_node(n: NodeVal) -> JsonVal
    decreases n,
{
    match n {
        NodeVal::Folder { env, children } => JsonVal::Obj(
            enc_env(env) + seq![(k_type(), JsonVal::Str(t_container()))] + (if children.len() == 0 {
                Seq::<(Seq<char>, JsonVal)>::empty()
            } else {
                seq![(k_children(), JsonVal::Arr(enc_nodes(children)))]
            }),
        ),
        NodeVal::Entry { env, uri, tags, charset, icon_uri } => JsonVal::Obj(
            enc_env(env) + seq![(k_type(), JsonVal::Str(t_entry())), (k_uri(), JsonVal::Str(uri))]
                + (match tags {
                Option::Some(t) => seq![(k_tags(), JsonVal::Str(spec_join(t)))],
                Option::None => Seq::<(Seq<char>, JsonVal)>::empty(),
            }) + (match charset {
                Option::Some(c) => seq![(k_charset(), JsonVal::Str(c))],
                Option::None => Seq::<(Seq<char>, JsonVal)>::empty(),
            }) + (match icon_uri {
                Option::Some(u) => seq![(k_icon_uri(), JsonVal::Str(u))],
                Option::None => Seq::<(Seq<char>, JsonVal)>::empty(),
            }),
        ),
        NodeVal::Separator { env } => JsonVal::Obj(
            enc_env(env) + seq![(k_type(), JsonVal::Str(t_separator()))],
        ),
    }
}

/// The encoded documents of a sequence of child nodes.
pub open spec fn enc_nodes(children: Seq<NodeVal>) -> Seq<JsonVal>
    decreases children,
{
    if children.len() == 0 {
        Seq::<JsonVal>::empty()
    } else {
        seq![enc_node(children[0])] + enc_nodes(children.subrange(1, children.len() as int))
    }
}

/// The encoded root document: the envelope, the verbatim type string, the
/// root category, and the children array exactly when the source document
/// had one.
pub open spec fn enc_root(r: RootVal) -> JsonVal {
    JsonVal::Obj(
        enc_env(r.env) + seq![(k_type(), JsonVal::Str(r.type_str)), (k_root(), JsonVal::Str(r.root))]
            + (if r.children_present {
            seq![(k_children(), JsonVal::Arr(enc_nodes(r.children)))]
        } else {
            Seq::<(Seq<char>, JsonVal)>::empty()
        }),
    )
}

/// The encoded documents of a sequence, element by element.
pub proof fn lemma_enc_nodes_index(children: Seq<NodeVal>)
    ensures
        enc_nodes(children).len() == children.len(),
        forall|i: int|
            #![trigger enc_nodes(children)[i]]
            #![trigger children[i]]
            0 <= i < children.len() ==> enc_nodes(children)[i] == enc_node(children[i]),
    decreases children.len(),
{
    if children.len() > 0 {
        let rest = children.subrange(1, children.len() as int);
        lemma_enc_nodes_index(rest);
        assert forall|i: int| 0 <= i < children.len() implies enc_nodes(children)[i] == enc_node(
            #[trigger] children[i],
        ) by {
            if i > 0 {
                assert(rest[i - 1] == children[i]);
                assert(enc_nodes(children)[i] == enc_nodes(rest)[i - 1]);
            }
        }
    }
}

/// Encode the shared envelope fields.
fn encode_envelope(e: &Envelope) -> (r: Vec<(String, Json)>)
    requires
        e.rep_wf(),
        env_wf(e@),
    ensures
        jfields(r@) == enc_env(e@),
{
    let mut v: Vec<(String, Json)> = Vec::new();
    v.push(("guid".to_owned(), Json::Str(e.guid.0.clone())));
    v.push(("title".to_owned(), Json::Str(e.title.clone())));
    v.push(("index".to_owned(), Json::Int(e.index as i64)));
    v.push(("dateAdded".to_owned(), Json::Int(e.date_added.to_micros())));
    v.push(("lastModified".to_owned(), Json::Int(e.last_modified.to_micros())));
    v.push(("id".to_owned(), Json::Int(e.id as i64)));
    v.push(("typeCode".to_owned(), Json::Int(e.type_code as i64)));
    proof {
        lemma_jfields_index(v@);
        assert(jfields(v@) =~= enc_env(e@));
    }
    v
}

/// Encode a child node as its wire document.
#[verifier::loop_isolation(false)]
pub fn encode_bookmark(b: &Bookmark) -> (r: Json)
    requires
        bm_wf(*b),
    ensures
        r@ == enc_node(b@),
    decreases *b,
{
    match b {
        Bookmark::Folder(f) => {
            let mut fields = encode_envelope(&f.envelope);
            proof {
                lemma_jfields_index(fields@);
            }
            fields.push(("type".to_owned(), Json::Str("text/x-moz-place-container".to_owned())));
            if f.children.len() > 0 {
                proof {
                    lemma_bms_view_index(f.children@);
                    lemma_bms_rep_wf_index(f.children@);
                    lemma_nodes_wf_index(bms_view(f.children@));
                }
                let ghost cv = bms_view(f.children@);
                let mut items: Vec<Json> = Vec::new();
                let mut i: usize = 0;
                while i < f.children.len()
                    invariant
                        i <= f.children@.len(),
                        bm_wf(*b),
                        b@ == (NodeVal::Folder { env: f.envelope@, children: cv }),
                        cv == bms_view(f.children@),
                        cv.len() == f.children@.len(),
                        forall|p: int|
                            0 <= p < f.children@.len() ==> cv[p] == bm_view(
                                #[trigger] f.children@[p],
                            ),
                        forall|p: int|
                            0 <= p < f.children@.len() ==> bm_rep_wf(#[trigger] f.children@[p]),
                        forall|p: int| 0 <= p < cv.len() ==> node_wf(#[trigger] cv[p]),
                        items@.len() == i,
                        forall|p: int| 0 <= p < i ==> (#[trigger] items@[p])@ == enc_node(cv[p]),
                    decreases f.children@.len() - i,
                {
                    proof {
                        assert(*b is Folder);
                        assert((*b)->Folder_0 == *f);
                        assert(decreases_to!(*b => b->Folder_0));
                        assert(decreases_to!(*f => f.children));
                        assert(decreases_to!(f.children => f.children@));
                        assert(decreases_to!(f.children@ => f.children@[i as int]));
                    }
                    let ej = encode_bookmark(&f.children[i]);
                    items.push(ej);
                    i = i + 1;
                }
                fields.push(("children".to_owned(), Json::Arr(items)));
                proof {
                    lemma_jfields_index(fields@);
                    lemma_jviews_index(items@);
                    lemma_enc_nodes_index(cv);
                    assert(jviews(items@) =~= enc_nodes(cv));
                    assert(jfields(fields@) =~= enc_env(f.envelope@) + seq![
                        (k_type(), JsonVal::Str(t_container())),
                    ] + seq![(k_children(), JsonVal::Arr(enc_nodes(cv)))]);
                }
                Json::Obj(fields)
            } else {
                proof {
                    lemma_jfields_index(fields@);
                    assert(bms_view(f.children@).len() == 0) by {
                        lemma_bms_view_index(f.children@);
                    }
                    assert(jfields(fields@) =~= enc_env(f.envelope@) + seq![
                        (k_type(), JsonVal::Str(t_container())),
                    ] + Seq::<(Seq<char>, JsonVal)>::empty());
                }
                Json::Obj(fields)
            }
        },
        Bookmark::Entry(e) => {
            let mut fields = encode_envelope(&e.envelope);
            proof {
                lemma_jfields_index(fields@);
            }
            fields.push(("type".to_owned(), Json::Str("text/x-moz-place".to_owned())));
            fields.push(("uri".to_owned(), Json::Str(e.uri.clone())));
            match &e.tags {
                Option::Some(t) => {
                    fields.push(("tags".to_owned(), Json::Str(t.encode())));
                },
                Option::None => {},
            }
            match &e.charset {
                Option::Some(c) => {
                    fields.push(("charset".to_owned(), Json::Str(c.clone())));
                },
                Option::None => {},
            }
            match &e.icon_uri {
                Option::Some(u) => {
                    fields.push(("iconUri".to_owned(), Json::Str(u.clone())));
                },
                Option::None => {},
            }
            proof {
                lemma_jfields_index(fields@);
                assert(jfields(fields@) =~= enc_node(b@)->Obj_0);
            }
            Json::Obj(fields)
        },
        Bookmark::Separator(s) => {
            let mut fields = encode_envelope(&s.envelope);
            proof {
                lemma_jfields_index(fields@);
            }
            fields.push(("type".to_owned(), Json::Str("text/x-moz-place-separator".to_owned())));
            proof {
                lemma_jfields_index(fields@);
                assert(jfields(fields@) =~= enc_node(b@)->Obj_0);
            }
            Json::Obj(fields)
        },
    }
}

/// Encode the root as its wire document.
#[verifier::loop_isolation(false)]
pub fn encode_root(r: &BookmarkRoot) -> (j: Json)
    requires
        bmroot_wf(*r),
    ensures
        j@ == enc_root(r@),
{
    let mut fields = encode_envelope(&r.envelope);
    proof {
        lemma_jfields_index(fields@);
    }
    fields.push(("type".to_owned(), Json::Str(r.type_str.clone())));
    fields.push(("root".to_owned(), Json::Str(r.root.clone())));
    if r.children_present {
        proof {
            lemma_bms_view_index(r.children@);
            lemma_bms_rep_wf_index(r.children@);
            lemma_nodes_wf_index(bms_view(r.children@));
        }
        let ghost cv = bms_view(r.children@);
        let mut items: Vec<Json> = Vec::new();
        let mut i: usize = 0;
        while i < r.children.len()
            invariant
                i <= r.children@.len(),
                cv == bms_view(r.children@),
                cv.len() == r.children@.len(),
                forall|p: int|
                    0 <= p < r.children@.len() ==> cv[p] == bm_view(#[trigger] r.children@[p]),
                forall|p: int| 0 <= p < r.children@.len() ==> bm_rep_wf(#[trigger] r.children@[p]),
                forall|p: int| 0 <= p < cv.len() ==> node_wf(#[trigger] cv[p]),
                items@.len() == i,
                forall|p: int| 0 <= p < i ==> (#[trigger] items@[p])@ == enc_node(cv[p]),
            decreases r.children@.len() - i,
        {
            let ej = encode_bookmark(&r.children[i]);
            items.push(ej);
            i = i + 1;
        }
        fields.push(("children".to_owned(), Json::Arr(items)));
        proof {
            lemma_jfields_index(fields@);
            lemma_jviews_index(items@);
            lemma_enc_nodes_index(cv);
            assert(jviews(items@) =~= enc_nodes(cv));
            assert(jfields(fields@) =~= enc_root(r@)->Obj_0);
        }
        Json::Obj(fields)
    } else {
        proof {
            lemma_jfields_index(fields@);
            assert(jfields(fields@) =~= enc_root(r@)->Obj_0);
        }
        Json::Obj(fields)
    }
}

/// The four record shapes a document object may take.
#[derive(Clone, Copy, Debug, PartialEq, Eq, Structural)]
pub enum NodeKind {
    Folder,
    Entry,
    Separator,
    Root,
}

/// Whether `k` is one of the envelope's keys.
pub open spec fn env_key(k: Seq<char>) -> bool {
    ||| k == k_guid()
    ||| k == k_title()
    ||| k == k_index()
    ||| k == k_date_added()
    ||| k == k_last_modified()
    ||| k == k_id()
    ||| k == k_type_code()
}

/// Whether `k` is a key the given record shape recognizes.
pub open spec fn key_ok(kind: NodeKind, k: Seq<char>) -> bool {
    match kind {
        NodeKind::Folder => env_key(k) || k == k_type() || k == k_children(),
        NodeKind::Entry => env_key(k) || k == k_type() || k == k_uri() || k == k_tags() || k
            == k_charset() || k == k_icon_uri(),
        NodeKind::Separator => env_key(k) || k == k_type(),
        NodeKind::Root => env_key(k) || k == k_type() || k == k_root() || k == k_children(),
    }
}

/// Whether every key of the object is recognized by the given shape.
pub open spec fn keys_ok(kind: NodeKind, fields: Seq<(Seq<char>, JsonVal)>) -> bool {
    forall|i: int| 0 <= i < fields.len() ==> key_ok(kind, (#[trigger] fields[i]).0)
}

/// The decoded envelope, when every required field is present, of the right
/// type, and in range.
pub open spec fn dec_env(fields: Seq<(Seq<char>, JsonVal)>) -> Option<EnvelopeVal> {
    match (
        jv_get(fields, k_guid()),
        jv_get(fields, k_title()),
        jv_get(fields, k_index()),
        jv_get(fields, k_date_added()),
        jv_get(fields, k_last_modified()),
        jv_get(fields, k_id()),
        jv_get(fields, k_type_code()),
    ) {
        (
            Option::Some(JsonVal::Str(g)),
            Option::Some(JsonVal::Str(t)),
            Option::Some(JsonVal::Int(ix)),
            Option::Some(JsonVal::Int(da)),
            Option::Some(JsonVal::Int(lm)),
            Option::Some(JsonVal::Int(id)),
            Option::Some(JsonVal::Int(tc)),
        ) => {
            if 0 <= ix <= i64::MAX && 0 <= id <= i64::MAX && 0 <= tc <= i64::MAX && ix
                <= usize::MAX && id <= usize::MAX && tc <= usize::MAX && i64::MIN <= da <= i64::MAX
                && i64::MIN <= lm <= i64::MAX {
                Option::Some(
                    EnvelopeVal {
                        guid: g,
                        title: t,
                        index: ix,
                        date_added: da,
                        last_modified: lm,
                        id: id,
                        type_code: tc,
                    },
                )
            } else {
                Option::None
            }
        },
        _ => Option::None,
    }
}

/// The decoded link entry of an object already known to carry the entry
/// discriminator.
pub open spec fn dec_entry(fields: Seq<(Seq<char>, JsonVal)>) -> Option<NodeVal> {
    if !keys_ok(NodeKind::Entry, fields) {
        Option::None
    } else {
        match (dec_env(fields), jv_get(fields, k_uri())) {
            (Option::Some(env), Option::Some(JsonVal::Str(uri))) => {
                let tags = match jv_get(fields, k_tags()) {
                    Option::None => Option::Some(Option::None),
                    Option::Some(JsonVal::Str(s)) => Option::Some(
                        Option::Some(spec_dedup(spec_split(s))),
                    ),
                    Option::Some(_) => Option::None,
                };
                let charset = match jv_get(fields, k_charset()) {
                    Option::None => Option::Some(Option::None),
                    Option::Some(JsonVal::Str(c)) => Option::Some(Option::Some(c)),
                    Option::Some(_) => Option::None,
                };
                let icon_uri = match jv_get(fields, k_icon_uri()) {
                    Option::None => Option::Some(Option::None),
                    Option::Some(JsonVal::Str(u)) => Option::Some(Option::Some(u)),
                    Option::Some(_) => Option::None,
                };
                match (tags, charset, icon_uri) {
                    (Option::Some(t), Option::Some(c), Option::Some(u)) => Option::Some(
                        NodeVal::Entry { env, uri, tags: t, charset: c, icon_uri: u },
                    ),
                    _ => Option::None,
                }
            },
            _ => Option::None,
        }
    }
}

/// The decoded separator of an object already known to carry the separator
/// discriminator.
pub open spec fn dec_sep(fields: Seq<(Seq<char>, JsonVal)>) -> Option<NodeVal> {
    if !keys_ok(NodeKind::Separator, fields) {
        Option::None
    } else {
        match dec_env(fields) {
            Option::Some(env) => Option::Some(NodeVal::Separator { env }),
            Option::None => Option::None,
        }
    }
}

/// The decoded child node: the discriminator selects the shape, and for the
/// folder shape an absent children key means no children.
pub open spec fn dec_node(j: JsonVal) -> Option<NodeVal>
    decreases j,
    via dec_node_dec
{
    match j {
        JsonVal::Obj(fields) => {
            if !unique_keys(fields) {
                Option::None
            } else {
                match jv_get(fields, k_type()) {
                    Option::Some(JsonVal::Str(ty)) => {
                        if ty == t_container() {
                            if !keys_ok(NodeKind::Folder, fields) {
                                Option::None
                            } else {
                                match dec_env(fields) {
                                    Option::Some(env) => match jv_get(fields, k_children()) {
                                        Option::None => Option::Some(
                                            NodeVal::Folder {
                                                env,
                                                children: Seq::<NodeVal>::empty(),
                                            },
                                        ),
                                        Option::Some(JsonVal::Arr(items)) => match dec_nodes(
                                            items,
                                        ) {
                                            Option::Some(children) => Option::Some(
                                                NodeVal::Folder { env, children },
                                            ),
                                            Option::None => Option::None,
                                        },
                                        Option::Some(_) => Option::None,
                                    },
                                    Option::None => Option::None,
                                }
                            }
                        } else if ty == t_entry() {
                            dec_entry(fields)
                        } else if ty == t_separator() {
                            dec_sep(fields)
                        } else {
                            Option::None
                        }
                    },
                    _ => Option::None,
                }
            }
        },
        _ => Option::None,
    }
}

/// The decoded children of an array, all or nothing.
pub open spec fn dec_nodes(items: Seq<JsonVal>) -> Option<Seq<NodeVal>>
    decreases items,
{
    if items.len() == 0 {
        Option::Some(Seq::<NodeVal>::empty())
    } else {
        match dec_node(items[0]) {
            Option::Some(n) => match dec_nodes(items.subrange(1, items.len() as int)) {
                Option::Some(rest) => Option::Some(seq![n] + rest),
                Option::None => Option::None,
            },
            Option::None => Option::None,
        }
    }
}

#[via_fn]
proof fn dec_node_dec(j: JsonVal) {
    match j {
        JsonVal::Obj(fields) => {
            lemma_jv_get_member(fields, k_children());
            if jv_get(fields, k_children()) is Some {
                let v = jv_get(fields, k_children())->Some_0;
                let i = choose|i: int|
                    0 <= i < fields.len() && #[trigger] fields[i] == (k_children(), v);
                assert(fields == j->Obj_0);
                assert(decreases_to!(j => j->Obj_0));
                assert(decreases_to!(fields => fields[i]));
                assert(decreases_to!(fields[i] => fields[i].1));
                if v is Arr {
                    assert(decreases_to!(v => v->Arr_0));
                }
            }
        },
        _ => {},
    }
}

/// The decoded root: the category is required, the discriminator string is
/// kept verbatim, and whether a children array was present is remembered.
pub open spec fn dec_root(j: JsonVal) -> Option<RootVal> {
    match j {
        JsonVal::Obj(fields) => {
            if !unique_keys(fields) || !keys_ok(NodeKind::Root, fields) {
                Option::None
            } else {
                match (dec_env(fields), jv_get(fields, k_type()), jv_get(fields, k_root())) {
                    (
                        Option::Some(env),
                        Option::Some(JsonVal::Str(ty)),
                        Option::Some(JsonVal::Str(root)),
                    ) => match jv_get(fields, k_children()) {
                        Option::None => Option::Some(
                            RootVal {
                                env,
                                type_str: ty,
                                root,
                                children: Seq::<NodeVal>::empty(),
                                children_present: false,
                            },
                        ),
                        Option::Some(JsonVal::Arr(items)) => match dec_nodes(items) {
                            Option::Some(children) => Option::Some(
                                RootVal { env, type_str: ty, root, children, children_present: true },
                            ),
                            Option::None => Option::None,
                        },
                        Option::Some(_) => Option::None,
                    },
                    _ => Option::None,
                }
            }
        },
        _ => Option::None,
    }
}

/// A decoded sequence exists exactly when each element decodes, and is then
/// the element-wise decode.
pub proof fn lemma_dec_nodes_index(items: Seq<JsonVal>)
    ensures
        (dec_nodes(items) is Some) <==> (forall|i: int|
            0 <= i < items.len() ==> (#[trigger] dec_node(items[i])) is Some),
        dec_nodes(items) is Some ==> dec_nodes(items)->Some_0.len() == items.len(),
        dec_nodes(items) is Some ==> forall|i: int|
            #![trigger dec_nodes(items)->Some_0[i]]
            #![trigger dec_node(items[i])]
            0 <= i < items.len() ==> dec_nodes(items)->Some_0[i] == dec_node(items[i])->Some_0,
    decreases items.len(),
{
    if items.len() > 0 {
        let rest = items.subrange(1, items.len() as int);
        lemma_dec_nodes_index(rest);
        if dec_nodes(items) is Some {
            assert forall|i: int| 0 <= i < items.len() implies (#[trigger] dec_node(
                items[i],
            )) is Some by {
                if i > 0 {
                    assert(rest[i - 1] == items[i]);
                    assert(dec_node(rest[i - 1]) is Some);
                }
            }
        }
        if forall|i: int| 0 <= i < items.len() ==> (#[trigger] dec_node(items[i])) is Some {
            assert forall|i: int| 0 <= i < rest.len() implies (#[trigger] dec_node(
                rest[i],
            )) is Some by {
                assert(rest[i] == items[i + 1]);
            }
            assert(dec_node(items[0]) is Some);
            assert(dec_nodes(rest) is Some);
        }
        if dec_nodes(items) is Some {
            let whole = dec_nodes(items)->Some_0;
            let n = dec_node(items[0])->Some_0;
            let r = dec_nodes(rest)->Some_0;
            assert(whole == seq![n] + r);
            assert forall|i: int| 0 <= i < items.len() implies dec_nodes(items)->Some_0[i]
                == dec_node(#[trigger] items[i])->Some_0 by {
                if i > 0 {
                    assert(whole[i] == r[i - 1]);
                    assert(rest[i - 1] == items[i]);
                }
            }
        }
    }
}

/// Whether the given shape recognizes this key.
fn key_allowed(kind: NodeKind, key: &String) -> (r: bool)
    ensures
        r == key_ok(kind, key@),
{
    if key.eq(&"guid".to_owned()) || key.eq(&"title".to_owned()) || key.eq(&"index".to_owned())
        || key.eq(&"dateAdded".to_owned()) || key.eq(&"lastModified".to_owned()) || key.eq(
        &"id".to_owned(),
    ) || key.eq(&"typeCode".to_owned()) || key.eq(&"type".to_owned()) {
        return true;
    }
    match kind {
        NodeKind::Folder => key.eq(&"children".to_owned()),
        NodeKind::Entry => key.eq(&"uri".to_owned()) || key.eq(&"tags".to_owned()) || key.eq(
            &"charset".to_owned(),
        ) || key.eq(&"iconUri".to_owned()),
        NodeKind::Separator => false,
        NodeKind::Root => key.eq(&"root".to_owned()) || key.eq(&"children".to_owned()),
    }
}

/// Whether the given shape recognizes every key of the object.
#[verifier::loop_isolation(false)]
fn keys_allowed(kind: NodeKind, fields: &Vec<(String, Json)>) -> (r: bool)
    ensures
        r == keys_ok(kind, jfields(fields@)),
{
    proof {
        lemma_jfields_index(fields@);
    }
    let ghost fv = jfields(fields@);
    let mut i: usize = 0;
    while i < fields.len()
        invariant
            i <= fields.len(),
            forall|j: int| 0 <= j < i ==> key_ok(kind, (#[trigger] fv[j]).0),
        decreases fields.len() - i,
    {
        if !key_allowed(kind, &fields[i].0) {
            proof {
                assert(!key_ok(kind, fv[i as int].0));
            }
            return false;
        }
        i = i + 1;
    }
    true
}

/// Decode the shared envelope fields.
fn decode_envelope(fields: &Vec<(String, Json)>) -> (r: Result<Envelope, SchemaError>)
    ensures
        match r {
            Result::Ok(env) => dec_env(jfields(fields@)) == Option::Some(env@) && env.rep_wf()
                && env_wf(env@),
            Result::Err(_) => dec_env(jfields(fields@)) is None,
        },
{
    let guid = match get_field(fields, &"guid".to_owned()) {
        Option::Some(Json::Str(s)) => Guid(s.clone()),
        _ => {
            return Result::Err(SchemaError);
        },
    };
    let title = match get_field(fields, &"title".to_owned()) {
        Option::Some(Json::Str(s)) => s.clone(),
        _ => {
            return Result::Err(SchemaError);
        },
    };
    let index = match get_field(fields, &"index".to_owned()) {
        Option::Some(Json::Int(v)) => {
            if *v >= 0 && (*v as u64) <= (usize::MAX as u64) {
                *v as usize
            } else {
                return Result::Err(SchemaError);
            }
        },
        _ => {
            return Result::Err(SchemaError);
        },
    };
    let date_added = match get_field(fields, &"dateAdded".to_owned()) {
        Option::Some(Json::Int(v)) => Timestamp::from_micros(*v),
        _ => {
            return Result::Err(SchemaError);
        },
    };
    let last_modified = match get_field(fields, &"lastModified".to_owned()) {
        Option::Some(Json::Int(v)) => Timestamp::from_micros(*v),
        _ => {
            return Result::Err(SchemaError);
        },
    };
    let id = match get_field(fields, &"id".to_owned()) {
        Option::Some(Json::Int(v)) => {
            if *v >= 0 && (*v as u64) <= (usize::MAX as u64) {
                *v as usize
            } else {
                return Result::Err(SchemaError);
            }
        },
        _ => {
            return Result::Err(SchemaError);
        },
    };
    let type_code = match get_field(fields, &"typeCode".to_owned()) {
        Option::Some(Json::Int(v)) => {
            if *v >= 0 && (*v as u64) <= (usize::MAX as u64) {
                *v as usize
            } else {
                return Result::Err(SchemaError);
            }
        },
        _ => {
            return Result::Err(SchemaError);
        },
    };
    Result::Ok(Envelope { guid, title, index, date_added, last_modified, id, type_code })
}

/// Decode a child node from its wire document. Returns the decoded value
/// exactly when the document has the schema's shape, and a schema error
/// otherwise.
#[verifier::loop_isolation(false)]
pub fn decode_bookmark(j: &Json) -> (r: Result<Bookmark, SchemaError>)
    ensures
        match r {
            Result::Ok(b) => dec_node(j@) == Option::Some(b@) && bm_wf(b),
            Result::Err(_) => dec_node(j@) is None,
        },
    decreases j@,
{
    let fields = match j {
        Json::Obj(fields) => fields,
        _ => {
            return Result::Err(SchemaError);
        },
    };
    let ghost fv = jfields(fields@);
    if !fields_unique(fields) {
        return Result::Err(SchemaError);
    }
    let ty = match get_field(fields, &"type".to_owned()) {
        Option::Some(Json::Str(t)) => t,
        _ => {
            return Result::Err(SchemaError);
        },
    };
    if ty.eq(&"text/x-moz-place-container".to_owned()) {
        if !keys_allowed(NodeKind::Folder, fields) {
            return Result::Err(SchemaError);
        }
        let envelope = match decode_envelope(fields) {
            Result::Ok(env) => env,
            Result::Err(e) => {
                return Result::Err(e);
            },
        };
        match get_field(fields, &"children".to_owned()) {
            Option::None => Result::Ok(
                Bookmark::Folder(BookmarkFolder { envelope, children: Vec::new() }),
            ),
            Option::Some(v) => match v {
                Json::Arr(items) => {
                    let ghost iv = jviews(items@);
                    proof {
                        lemma_jviews_index(items@);
                        lemma_jv_get_member(fv, k_children());
                    }
                    let mut children: Vec<Bookmark> = Vec::new();
                    let mut idx: usize = 0;
                    while idx < items.len()
                        invariant
                            idx <= items@.len(),
                            children@.len() == idx,
                            forall|p: int|
                                0 <= p < idx ==> dec_node(iv[p]) == Option::Some(
                                    bm_view(#[trigger] children@[p]),
                                ),
                            forall|p: int| 0 <= p < idx ==> bm_wf(#[trigger] children@[p]),
                        decreases items@.len() - idx,
                    {
                        proof {
                            let i0 = choose|i: int|
                                0 <= i < fv.len() && #[trigger] fv[i] == (k_children(), v@);
                            assert(decreases_to!(j@ => j@->Obj_0));
                            assert(j@->Obj_0 == fv);
                            assert(decreases_to!(fv => fv[i0]));
                            assert(decreases_to!(fv[i0] => fv[i0].1));
                            assert(fv[i0].1 == v@);
                            assert(decreases_to!(v@ => v@->Arr_0));
                            assert(v@->Arr_0 == iv);
                            assert(decreases_to!(iv => iv[idx as int]));
                            assert(iv[idx as int] == jview(items@[idx as int]));
                        }
                        match decode_bookmark(&items[idx]) {
                            Result::Ok(c) => {
                                children.push(c);
                            },
                            Result::Err(e) => {
                                proof {
                                    lemma_dec_nodes_index(iv);
                                }
                                return Result::Err(e);
                            },
                        }
                        idx = idx + 1;
                    }
                    proof {
                        lemma_dec_nodes_index(iv);
                        lemma_bms_view_index(children@);
                        lemma_bms_rep_wf_index(children@);
                        assert forall|p: int| 0 <= p < iv.len() implies (#[trigger] dec_node(
                            iv[p],
                        )) is Some by {
                            assert(dec_node(iv[p]) == Option::Some(bm_view(children@[p])));
                        }
                        assert(dec_nodes(iv) is Some);
                        assert(dec_nodes(iv)->Some_0 =~= bms_view(children@));
                        lemma_nodes_wf_index(bms_view(children@));
                    }
                    Result::Ok(Bookmark::Folder(BookmarkFolder { envelope, children }))
                },
                _ => Result::Err(SchemaError),
            },
        }
    } else if ty.eq(&"text/x-moz-place".to_owned()) {
        if !keys_allowed(NodeKind::Entry, fields) {
            return Result::Err(SchemaError);
        }
        let envelope = match decode_envelope(fields) {
            Result::Ok(env) => env,
            Result::Err(e) => {
                return Result::Err(e);
            },
        };
        let uri = match get_field(fields, &"uri".to_owned()) {
            Option::Some(Json::Str(s)) => s.clone(),
            _ => {
                return Result::Err(SchemaError);
            },
        };
        let tags = match get_field(fields, &"tags".to_owned()) {
            Option::None => Option::None,
            Option::Some(Json::Str(s)) => Option::Some(Tags::decode(s.as_str())),
            Option::Some(_) => {
                return Result::Err(SchemaError);
            },
        };
        let charset = match get_field(fields, &"charset".to_owned()) {
            Option::None => Option::None,
            Option::Some(Json::Str(s)) => Option::Some(s.clone()),
            Option::Some(_) => {
                return Result::Err(SchemaError);
            },
        };
        let icon_uri = match get_field(fields, &"iconUri".to_owned()) {
            Option::None => Option::None,
            Option::Some(Json::Str(s)) => Option::Some(s.clone()),
            Option::Some(_) => {
                return Result::Err(SchemaError);
            },
        };
        Result::Ok(Bookmark::Entry(BookmarkEntry { envelope, uri, tags, charset, icon_uri }))
    } else if ty.eq(&"text/x-moz-place-separator".to_owned()) {
        if !keys_allowed(NodeKind::Separator, fields) {
            return Result::Err(SchemaError);
        }
        match decode_envelope(fields) {
            Result::Ok(envelope) => Result::Ok(
                Bookmark::Separator(BookmarkSeparator { envelope }),
            ),
            Result::Err(e) => Result::Err(e),
        }
    } else {
        Result::Err(SchemaError)
    }
}

/// Decode the root from its wire document. Returns the decoded value exactly
/// when the document has the schema's shape, and a schema error otherwise.
#[verifier::loop_isolation(false)]
pub fn decode_root(j: &Json) -> (r: Result<BookmarkRoot, SchemaError>)
    ensures
        match r {
            Result::Ok(b) => dec_root(j@) == Option::Some(b@) && bmroot_wf(b),
            Result::Err(_) => dec_root(j@) is None,
        },
{
    let fields = match j {
        Json::Obj(fields) => fields,
        _ => {
            return Result::Err(SchemaError);
        },
    };
    let ghost fv = jfields(fields@);
    if !fields_unique(fields) {
        return Result::Err(SchemaError);
    }
    if !keys_allowed(NodeKind::Root, fields) {
        return Result::Err(SchemaError);
    }
    let envelope = match decode_envelope(fields) {
        Result::Ok(env) => env,
        Result::Err(e) => {
            return Result::Err(e);
        },
    };
    let type_str = match get_field(fields, &"type".to_owned()) {
        Option::Some(Json::Str(t)) => t.clone(),
        _ => {
            return Result::Err(SchemaError);
        },
    };
    let root = match get_field(fields, &"root".to_owned()) {
        Option::Some(Json::Str(s)) => s.clone(),
        _ => {
            return Result::Err(SchemaError);
        },
    };
    match get_field(fields, &"children".to_owned()) {
        Option::None => Result::Ok(
            BookmarkRoot {
                envelope,
                type_str,
                root,
                children: Vec::new(),
                children_present: false,
            },
        ),
        Option::Some(v) => match v {
            Json::Arr(items) => {
                let ghost iv = jviews(items@);
                proof {
                    lemma_jviews_index(items@);
                }
                let mut children: Vec<Bookmark> = Vec::new();
                let mut idx: usize = 0;
                while idx < items.len()
                    invariant
                        idx <= items@.len(),
                        children@.len() == idx,
                        forall|p: int|
                            0 <= p < idx ==> dec_node(iv[p]) == Option::Some(
                                bm_view(#[trigger] children@[p]),
                            ),
                        forall|p: int| 0 <= p < idx ==> bm_wf(#[trigger] children@[p]),
                    decreases items@.len() - idx,
                {
                    match decode_bookmark(&items[idx]) {
                        Result::Ok(c) => {
                            children.push(c);
                        },
                        Result::Err(e) => {
                            proof {
                                lemma_dec_nodes_index(iv);
                            }
                            return Result::Err(e);
                        },
                    }
                    idx = idx + 1;
                }
                proof {
                    lemma_dec_nodes_index(iv);
                    lemma_bms_view_index(children@);
                    lemma_bms_rep_wf_index(children@);
                    assert forall|p: int| 0 <= p < iv.len() implies (#[trigger] dec_node(
                        iv[p],
                    )) is Some by {
                        assert(dec_node(iv[p]) == Option::Some(bm_view(children@[p])));
                    }
                    assert(dec_nodes(iv) is Some);
                    assert(dec_nodes(iv)->Some_0 =~= bms_view(children@));
                    lemma_nodes_wf_index(bms_view(children@));
                }
                Result::Ok(
                    BookmarkRoot { envelope, type_str, root, children, children_present: true },
                )
            },
            _ => Result::Err(SchemaError),
        },
    }
}

/// A decoded document: the root where the root category is present, a child
/// node otherwise.
#[derive(Debug)]
pub enum Document {
    Root(BookmarkRoot),
    Node(Bookmark),
}

/// The shape of a decoded document.
pub enum DocumentVal {
    Root(RootVal),
    Node(NodeVal),
}

impl View for Document {
    type V = DocumentVal;

    open spec fn view(&self) -> DocumentVal {
        match self {
            Document::Root(r) => DocumentVal::Root(r@),
            Document::Node(b) => DocumentVal::Node(b@),
        }
    }
}

/// A fully well-formed document value.
pub open spec fn doc_wf(d: Document) -> bool {
    match d {
        Document::Root(r) => bmroot_wf(r),
        Document::Node(b) => bm_wf(b),
    }
}

/// The decoded document: an object with the root category decodes as the
/// root, any other object as a child node.
pub open spec fn dec_document(j: JsonVal) -> Option<DocumentVal> {
    match j {
        JsonVal::Obj(fields) => {
            if jv_has(fields, k_root()) {
                match dec_root(j) {
                    Option::Some(r) => Option::Some(DocumentVal::Root(r)),
                    Option::None => Option::None,
                }
            } else {
                match dec_node(j) {
                    Option::Some(n) => Option::Some(DocumentVal::Node(n)),
                    Option::None => Option::None,
                }
            }
        },
        _ => Option::None,
    }
}

/// The encoded document.
pub open spec fn enc_document(d: DocumentVal) -> JsonVal {
    match d {
        DocumentVal::Root(r) => enc_root(r),
        DocumentVal::Node(n) => enc_node(n),
    }
}

/// Decode a whole document, telling the root from a folder by the presence
/// of the root category despite their identical discriminator strings.
pub fn decode_document(j: &Json) -> (r: Result<Document, SchemaError>)
    ensures
        match r {
            Result::Ok(d) => dec_document(j@) == Option::Some(d@) && doc_wf(d),
            Result::Err(_) => dec_document(j@) is None,
        },
{
    let fields = match j {
        Json::Obj(fields) => fields,
        _ => {
            return Result::Err(SchemaError);
        },
    };
    let has_root = match get_field(fields, &"root".to_owned()) {
        Option::Some(_) => true,
        Option::None => false,
    };
    if has_root {
        match decode_root(j) {
            Result::Ok(r) => Result::Ok(Document::Root(r)),
            Result::Err(e) => Result::Err(e),
        }
    } else {
        match decode_bookmark(j) {
            Result::Ok(b) => Result::Ok(Document::Node(b)),
            Result::Err(e) => Result::Err(e),
        }
    }
}

/// Encode a decoded document back to its wire form.
pub fn encode_document(d: &Document) -> (r: Json)
    requires
        doc_wf(*d),
    ensures
        r@ == enc_document(d@),
{
    match d {
        Document::Root(root) => encode_root(root),
        Document::Node(b) => encode_bookmark(b),
    }
}

} // verus!

