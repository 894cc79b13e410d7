//! The laws the codec obeys: decoding an encoded value returns the value
//! unchanged, suppressed fields are really absent, and the root is told from
//! a folder by the root category alone.

use crate::codec::{
    dec_document, dec_env, dec_node, dec_nodes, dec_root, enc_document, enc_env, enc_node,
    enc_nodes, enc_root, env_key, k_charset, k_children, k_date_added, k_guid, k_icon_uri, k_id,
    k_index, k_last_modified, k_root, k_tags, k_title, k_type, k_type_code, k_uri, keys_ok,
    lemma_dec_nodes_index, lemma_enc_nodes_index, t_container, t_entry, t_separator, DocumentVal,
    NodeKind,
};
use crate::json::{
    json_eq, jv_get, jv_has, keys_of, lemma_jv_get_at, lemma_jv_get_none, unique_keys, JsonVal,
};
use crate::model::{lemma_nodes_wf_index, node_wf, root_wf, EnvelopeVal, NodeVal, RootVal};
use crate::tags::{lemma_dedup_id, spec_dedup, spec_join, spec_split};
use vstd::prelude::*;

verus! {

/// The wire keys are pairwise distinct, and so are the three
/// discriminator strings.
#[verifier::rlimit(60)]
pub proof fn lemma_wire_strings_distinct()
    ensures
        k_guid() != k_title(),
        k_guid() != k_index(),
        k_guid() != k_date_added(),
        k_guid() != k_last_modified(),
        k_guid() != k_id(),
        k_guid() != k_type_code(),
        k_guid() != k_type(),
        k_guid() != k_root(),
        k_guid() != k_children(),
        k_guid() != k_uri(),
        k_guid() != k_tags(),
        k_guid() != k_charset(),
        k_guid() != k_icon_uri(),
        k_title() != k_index(),
        k_title() != k_date_added(),
        k_title() != k_last_modified(),
        k_title() != k_id(),
        k_title() != k_type_code(),
        k_title() != k_type(),
        k_title() != k_root(),
        k_title() != k_children(),
        k_title() != k_uri(),
        k_title() != k_tags(),
        k_title() != k_charset(),
        k_title() != k_icon_uri(),
        k_index() != k_date_added(),
        k_index() != k_last_modified(),
        k_index() != k_id(),
        k_index() != k_type_code(),
        k_index() != k_type(),
        k_index() != k_root(),
        k_index() != k_children(),
        k_index() != k_uri(),
        k_index() != k_tags(),
        k_index() != k_charset(),
        k_index() != k_icon_uri(),
        k_date_added() != k_last_modified(),
        k_date_added() != k_id(),
        k_date_added() != k_type_code(),
        k_date_added() != k_type(),
        k_date_added() != k_root(),
        k_date_added() != k_children(),
        k_date_added() != k_uri(),
        k_date_added() != k_tags(),
        k_date_added() != k_charset(),
        k_date_added() != k_icon_uri(),
        k_last_modified() != k_id(),
        k_last_modified() != k_type_code(),
        k_last_modified() != k_type(),
        k_last_modified() != k_root(),
        k_last_modified() != k_children(),
        k_last_modified() != k_uri(),
        k_last_modified() != k_tags(),
        k_last_modified() != k_charset(),
        k_last_modified() != k_icon_uri(),
        k_id() != k_type_code(),
        k_id() != k_type(),
        k_id() != k_root(),
        k_id() != k_children(),
        k_id() != k_uri(),
        k_id() != k_tags(),
        k_id() != k_charset(),
        k_id() != k_icon_uri(),
        k_type_code() != k_type(),
        k_type_code() != k_root(),
        k_type_code() != k_children(),
        k_type_code() != k_uri(),
        k_type_code() != k_tags(),
        k_type_code() != k_charset(),
        k_type_code() != k_icon_uri(),
        k_type() != k_root(),
        k_type() != k_children(),
        k_type() != k_uri(),
        k_type() != k_tags(),
        k_type() != k_charset(),
        k_type() != k_icon_uri(),
        k_root() != k_children(),
        k_root() != k_uri(),
        k_root() != k_tags(),
        k_root() != k_charset(),
        k_root() != k_icon_uri(),
        k_children() != k_uri(),
        k_children() != k_tags(),
        k_children() != k_charset(),
        k_children() != k_icon_uri(),
        k_uri() != k_tags(),
        k_uri() != k_charset(),
        k_uri() != k_icon_uri(),
        k_tags() != k_charset(),
        k_tags() != k_icon_uri(),
        k_charset() != k_icon_uri(),
        t_container() != t_entry(),
        t_container() != t_separator(),
        t_entry() != t_separator(),
{
    reveal_strlit("guid");
    reveal_strlit("title");
    reveal_strlit("index");
    reveal_strlit("dateAdded");
    reveal_strlit("lastModified");
    reveal_strlit("id");
    reveal_strlit("typeCode");
    reveal_strlit("type");
    reveal_strlit("root");
    reveal_strlit("children");
    reveal_strlit("uri");
    reveal_strlit("tags");
    reveal_strlit("charset");
    reveal_strlit("iconUri");
    reveal_strlit("text/x-moz-place-container");
    reveal_strlit("text/x-moz-place");
    reveal_strlit("text/x-moz-place-separator");
    assert(k_guid() != k_title()) by {
        assert(k_guid().len() == 4);
        assert(k_title().len() == 5);
    }
    assert(k_guid() != k_index()) by {
        assert(k_guid().len() == 4);
        assert(k_index().len() == 5);
    }
    assert(k_guid() != k_date_added()) by {
        assert(k_guid().len() == 4);
        assert(k_date_added().len() == 9);
    }
    assert(k_guid() != k_last_modified()) by {
        assert(k_guid().len() == 4);
        assert(k_last_modified().len() == 12);
    }
    assert(k_guid() != k_id()) by {
        assert(k_guid().len() == 4);
        assert(k_id().len() == 2);
    }
    assert(k_guid() != k_type_code()) by {
        assert(k_guid().len() == 4);
        assert(k_type_code().len() == 8);
    }
    assert(k_guid() != k_type()) by {
        assert(k_guid()[0] == 'g');
        assert(k_type()[0] == 't');
    }
    assert(k_guid() != k_root()) by {
        assert(k_guid()[0] == 'g');
        assert(k_root()[0] == 'r');
    }
    assert(k_guid() != k_children()) by {
        assert(k_guid().len() == 4);
        assert(k_children().len() == 8);
    }
    assert(k_guid() != k_uri()) by {
        assert(k_guid().len() == 4);
        assert(k_uri().len() == 3);
    }
    assert(k_guid() != k_tags()) by {
        assert(k_guid()[0] == 'g');
        assert(k_tags()[0] == 't');
    }
    assert(k_guid() != k_charset()) by {
        assert(k_guid().len() == 4);
        assert(k_charset().len() == 7);
    }
    assert(k_guid() != k_icon_uri()) by {
        assert(k_guid().len() == 4);
        assert(k_icon_uri().len() == 7);
    }
    assert(k_title() != k_index()) by {
        assert(k_title()[0] == 't');
        assert(k_index()[0] == 'i');
    }
    assert(k_title() != k_date_added()) by {
        assert(k_title().len() == 5);
        assert(k_date_added().len() == 9);
    }
    assert(k_title() != k_last_modified()) by {
        assert(k_title().len() == 5);
        assert(k_last_modified().len() == 12);
    }
    assert(k_title() != k_id()) by {
        assert(k_title().len() == 5);
        assert(k_id().len() == 2);
    }
    assert(k_title() != k_type_code()) by {
        assert(k_title().len() == 5);
        assert(k_type_code().len() == 8);
    }
    assert(k_title() != k_type()) by {
        assert(k_title().len() == 5);
        assert(k_type().len() == 4);
    }
    assert(k_title() != k_root()) by {
        assert(k_title().len() == 5);
        assert(k_root().len() == 4);
    }
    assert(k_title() != k_children()) by {
        assert(k_title().len() == 5);
        assert(k_children().len() == 8);
    }
    assert(k_title() != k_uri()) by {
        assert(k_title().len() == 5);
        assert(k_uri().len() == 3);
    }
    assert(k_title() != k_tags()) by {
        assert(k_title().len() == 5);
        assert(k_tags().len() == 4);
    }
    assert(k_title() != k_charset()) by {
        assert(k_title().len() == 5);
        assert(k_charset().len() == 7);
    }
    assert(k_title() != k_icon_uri()) by {
        assert(k_title().len() == 5);
        assert(k_icon_uri().len() == 7);
    }
    assert(k_index() != k_date_added()) by {
        assert(k_index().len() == 5);
        assert(k_date_added().len() == 9);
    }
    assert(k_index() != k_last_modified()) by {
        assert(k_index().len() == 5);
        assert(k_last_modified().len() == 12);
    }
    assert(k_index() != k_id()) by {
        assert(k_index().len() == 5);
        assert(k_id().len() == 2);
    }
    assert(k_index() != k_type_code()) by {
        assert(k_index().len() == 5);
        assert(k_type_code().len() == 8);
    }
    assert(k_index() != k_type()) by {
        assert(k_index().len() == 5);
        assert(k_type().len() == 4);
    }
    assert(k_index() != k_root()) by {
        assert(k_index().len() == 5);
        assert(k_root().len() == 4);
    }
    assert(k_index() != k_children()) by {
        assert(k_index().len() == 5);
        assert(k_children().len() == 8);
    }
    assert(k_index() != k_uri()) by {
        assert(k_index().len() == 5);
        assert(k_uri().len() == 3);
    }
    assert(k_index() != k_tags()) by {
        assert(k_index().len() == 5);
        assert(k_tags().len() == 4);
    }
    assert(k_index() != k_charset()) by {
        assert(k_index().len() == 5);
        assert(k_charset().len() == 7);
    }
    assert(k_index() != k_icon_uri()) by {
        assert(k_index().len() == 5);
        assert(k_icon_uri().len() == 7);
    }
    assert(k_date_added() != k_last_modified()) by {
        assert(k_date_added().len() == 9);
        assert(k_last_modified().len() == 12);
    }
    assert(k_date_added() != k_id()) by {
        assert(k_date_added().len() == 9);
        assert(k_id().len() == 2);
    }
    assert(k_date_added() != k_type_code()) by {
        assert(k_date_added().len() == 9);
        assert(k_type_code().len() == 8);
    }
    assert(k_date_added() != k_type()) by {
        assert(k_date_added().len() == 9);
        assert(k_type().len() == 4);
    }
    assert(k_date_added() != k_root()) by {
        assert(k_date_added().len() == 9);
        assert(k_root().len() == 4);
    }
    assert(k_date_added() != k_children()) by {
        assert(k_date_added().len() == 9);
        assert(k_children().len() == 8);
    }
    assert(k_date_added() != k_uri()) by {
        assert(k_date_added().len() == 9);
        assert(k_uri().len() == 3);
    }
    assert(k_date_added() != k_tags()) by {
        assert(k_date_added().len() == 9);
        assert(k_tags().len() == 4);
    }
    assert(k_date_added() != k_charset()) by {
        assert(k_date_added().len() == 9);
        assert(k_charset().len() == 7);
    }
    assert(k_date_added() != k_icon_uri()) by {
        assert(k_date_added().len() == 9);
        assert(k_icon_uri().len() == 7);
    }
    assert(k_last_modified() != k_id()) by {
        assert(k_last_modified().len() == 12);
        assert(k_id().len() == 2);
    }
    assert(k_last_modified() != k_type_code()) by {
        assert(k_last_modified().len() == 12);
        assert(k_type_code().len() == 8);
    }
    assert(k_last_modified() != k_type()) by {
        assert(k_last_modified().len() == 12);
        assert(k_type().len() == 4);
    }
    assert(k_last_modified() != k_root()) by {
        assert(k_last_modified().len() == 12);
        assert(k_root().len() == 4);
    }
    assert(k_last_modified() != k_children()) by {
        assert(k_last_modified().len() == 12);
        assert(k_children().len() == 8);
    }
    assert(k_last_modified() != k_uri()) by {
        assert(k_last_modified().len() == 12);
        assert(k_uri().len() == 3);
    }
    assert(k_last_modified() != k_tags()) by {
        assert(k_last_modified().len() == 12);
        assert(k_tags().len() == 4);
    }
    assert(k_last_modified() != k_charset()) by {
        assert(k_last_modified().len() == 12);
        assert(k_charset().len() == 7);
    }
    assert(k_last_modified() != k_icon_uri()) by {
        assert(k_last_modified().len() == 12);
        assert(k_icon_uri().len() == 7);
    }
    assert(k_id() != k_type_code()) by {
        assert(k_id().len() == 2);
        assert(k_type_code().len() == 8);
    }
    assert(k_id() != k_type()) by {
        assert(k_id().len() == 2);
        assert(k_type().len() == 4);
    }
    assert(k_id() != k_root()) by {
        assert(k_id().len() == 2);
        assert(k_root().len() == 4);
    }
    assert(k_id() != k_children()) by {
        assert(k_id().len() == 2);
        assert(k_children().len() == 8);
    }
    assert(k_id() != k_uri()) by {
        assert(k_id().len() == 2);
        assert(k_uri().len() == 3);
    }
    assert(k_id() != k_tags()) by {
        assert(k_id().len() == 2);
        assert(k_tags().len() == 4);
    }
    assert(k_id() != k_charset()) by {
        assert(k_id().len() == 2);
        assert(k_charset().len() == 7);
    }
    assert(k_id() != k_icon_uri()) by {
        assert(k_id().len() == 2);
        assert(k_icon_uri().len() == 7);
    }
    assert(k_type_code() != k_type()) by {
        assert(k_type_code().len() == 8);
        assert(k_type().len() == 4);
    }
    assert(k_type_code() != k_root()) by {
        assert(k_type_code().len() == 8);
        assert(k_root().len() == 4);
    }
    assert(k_type_code() != k_children()) by {
        assert(k_type_code()[0] == 't');
        assert(k_children()[0] == 'c');
    }
    assert(k_type_code() != k_uri()) by {
        assert(k_type_code().len() == 8);
        assert(k_uri().len() == 3);
    }
    assert(k_type_code() != k_tags()) by {
        assert(k_type_code().len() == 8);
        assert(k_tags().len() == 4);
    }
    assert(k_type_code() != k_charset()) by {
        assert(k_type_code().len() == 8);
        assert(k_charset().len() == 7);
    }
    assert(k_type_code() != k_icon_uri()) by {
        assert(k_type_code().len() == 8);
        assert(k_icon_uri().len() == 7);
    }
    assert(k_type() != k_root()) by {
        assert(k_type()[0] == 't');
        assert(k_root()[0] == 'r');
    }
    assert(k_type() != k_children()) by {
        assert(k_type().len() == 4);
        assert(k_children().len() == 8);
    }
    assert(k_type() != k_uri()) by {
        assert(k_type().len() == 4);
        assert(k_uri().len() == 3);
    }
    assert(k_type() != k_tags()) by {
        assert(k_type()[1] == 'y');
        assert(k_tags()[1] == 'a');
    }
    assert(k_type() != k_charset()) by {
        assert(k_type().len() == 4);
        assert(k_charset().len() == 7);
    }
    assert(k_type() != k_icon_uri()) by {
        assert(k_type().len() == 4);
        assert(k_icon_uri().len() == 7);
    }
    assert(k_root() != k_children()) by {
        assert(k_root().len() == 4);
        assert(k_children().len() == 8);
    }
    assert(k_root() != k_uri()) by {
        assert(k_root().len() == 4);
        assert(k_uri().len() == 3);
    }
    assert(k_root() != k_tags()) by {
        assert(k_root()[0] == 'r');
        assert(k_tags()[0] == 't');
    }
    assert(k_root() != k_charset()) by {
        assert(k_root().len() == 4);
        assert(k_charset().len() == 7);
    }
    assert(k_root() != k_icon_uri()) by {
        assert(k_root().len() == 4);
        assert(k_icon_uri().len() == 7);
    }
    assert(k_children() != k_uri()) by {
        assert(k_children().len() == 8);
        assert(k_uri().len() == 3);
    }
    assert(k_children() != k_tags()) by {
        assert(k_children().len() == 8);
        assert(k_tags().len() == 4);
    }
    assert(k_children() != k_charset()) by {
        assert(k_children().len() == 8);
        assert(k_charset().len() == 7);
    }
    assert(k_children() != k_icon_uri()) by {
        assert(k_children().len() == 8);
        assert(k_icon_uri().len() == 7);
    }
    assert(k_uri() != k_tags()) by {
        assert(k_uri().len() == 3);
        assert(k_tags().len() == 4);
    }
    assert(k_uri() != k_charset()) by {
        assert(k_uri().len() == 3);
        assert(k_charset().len() == 7);
    }
    assert(k_uri() != k_icon_uri()) by {
        assert(k_uri().len() == 3);
        assert(k_icon_uri().len() == 7);
    }
    assert(k_tags() != k_charset()) by {
        assert(k_tags().len() == 4);
        assert(k_charset().len() == 7);
    }
    assert(k_tags() != k_icon_uri()) by {
        assert(k_tags().len() == 4);
        assert(k_icon_uri().len() == 7);
    }
    assert(k_charset() != k_icon_uri()) by {
        assert(k_charset()[0] == 'c');
        assert(k_icon_uri()[0] == 'i');
    }
    assert(t_container() != t_entry()) by {
        assert(t_container().len() == 26);
        assert(t_entry().len() == 16);
    }
    assert(t_container() != t_separator()) by {
        assert(t_container()[17] == 'c');
        assert(t_separator()[17] == 's');
    }
    assert(t_entry() != t_separator()) by {
        assert(t_entry().len() == 16);
        assert(t_separator().len() == 26);
    }
}
/// Looking an envelope key up in an encoded object finds the envelope's
/// value; any other key passes the envelope by.
proof fn lemma_env_lookups(env: EnvelopeVal, tail: Seq<(Seq<char>, JsonVal)>)
    requires
        forall|t: int| 0 <= t < tail.len() ==> !env_key((#[trigger] tail[t]).0),
    ensures
        jv_get(enc_env(env) + tail, k_guid()) == Option::Some(JsonVal::Str(env.guid)),
        jv_get(enc_env(env) + tail, k_title()) == Option::Some(JsonVal::Str(env.title)),
        jv_get(enc_env(env) + tail, k_index()) == Option::Some(JsonVal::Int(env.index)),
        jv_get(enc_env(env) + tail, k_date_added()) == Option::Some(JsonVal::Int(env.date_added)),
        jv_get(enc_env(env) + tail, k_last_modified()) == Option::Some(
            JsonVal::Int(env.last_modified),
        ),
        jv_get(enc_env(env) + tail, k_id()) == Option::Some(JsonVal::Int(env.id)),
        jv_get(enc_env(env) + tail, k_type_code()) == Option::Some(JsonVal::Int(env.type_code)),
        forall|k: Seq<char>|
            !env_key(k) ==> #[trigger] jv_get(enc_env(env) + tail, k) == jv_get(tail, k),
{
    lemma_wire_strings_distinct();
    let F = enc_env(env) + tail;
    assert(F[0] == (k_guid(), JsonVal::Str(env.guid)));
    assert(F[1] == (k_title(), JsonVal::Str(env.title)));
    assert(F[2] == (k_index(), JsonVal::Int(env.index)));
    assert(F[3] == (k_date_added(), JsonVal::Int(env.date_added)));
    assert(F[4] == (k_last_modified(), JsonVal::Int(env.last_modified)));
    assert(F[5] == (k_id(), JsonVal::Int(env.id)));
    assert(F[6] == (k_type_code(), JsonVal::Int(env.type_code)));
    lemma_jv_get_at(F, k_guid(), 0);
    lemma_jv_get_at(F, k_title(), 1);
    lemma_jv_get_at(F, k_index(), 2);
    lemma_jv_get_at(F, k_date_added(), 3);
    lemma_jv_get_at(F, k_last_modified(), 4);
    lemma_jv_get_at(F, k_id(), 5);
    lemma_jv_get_at(F, k_type_code(), 6);
    assert forall|k: Seq<char>| !env_key(k) implies #[trigger] jv_get(F, k) == jv_get(
        tail,
        k,
    ) by {
        let d1 = F.drop_first();
        let d2 = d1.drop_first();
        let d3 = d2.drop_first();
        let d4 = d3.drop_first();
        let d5 = d4.drop_first();
        let d6 = d5.drop_first();
        let d7 = d6.drop_first();
        assert(d7 =~= tail);
        assert(d1[0] == F[1] && d2[0] == F[2] && d3[0] == F[3] && d4[0] == F[4] && d5[0] == F[5]
            && d6[0] == F[6]);
        assert(jv_get(F, k) == jv_get(d1, k));
        assert(jv_get(d1, k) == jv_get(d2, k));
        assert(jv_get(d2, k) == jv_get(d3, k));
        assert(jv_get(d3, k) == jv_get(d4, k));
        assert(jv_get(d4, k) == jv_get(d5, k));
        assert(jv_get(d5, k) == jv_get(d6, k));
        assert(jv_get(d6, k) == jv_get(d7, k));
    }
}

/// Law: decoding an encoded well-formed child node returns it unchanged,
/// and an encoded child node never carries the root category.
#[verifier::rlimit(100)]
pub proof fn lemma_node_round_trip(n: NodeVal)
    requires
        node_wf(n),
    ensures
        dec_node(enc_node(n)) == Option::Some(n),
        enc_node(n) is Obj,
        !jv_has(enc_node(n)->Obj_0, k_root()),
    decreases n,
{
    lemma_wire_strings_distinct();
    match n {
        NodeVal::Folder { env, children } => {
            let tail = seq![(k_type(), JsonVal::Str(t_container()))] + (if children.len() == 0 {
                Seq::<(Seq<char>, JsonVal)>::empty()
            } else {
                seq![(k_children(), JsonVal::Arr(enc_nodes(children)))]
            });
            let F = enc_env(env) + tail;
            assert(F =~= enc_node(n)->Obj_0);
            assert forall|t: int| 0 <= t < tail.len() implies !env_key(
                (#[trigger] tail[t]).0,
            ) by {}
            lemma_env_lookups(env, tail);
            assert(unique_keys(F)) by {
                assert forall|p: int, q: int|
                    0 <= p < keys_of(F).len() && 0 <= q < keys_of(F).len() && p != q implies keys_of(
                    F,
                )[p] != keys_of(F)[q] by {
                    assert(keys_of(F)[p] == F[p].0);
                    assert(keys_of(F)[q] == F[q].0);
                }
            }
            assert(jv_get(tail, k_type()) == Option::Some(JsonVal::Str(t_container())));
            assert(jv_get(F, k_type()) == Option::Some(JsonVal::Str(t_container())));
            assert(keys_ok(NodeKind::Folder, F)) by {
                assert forall|i: int| 0 <= i < F.len() implies crate::codec::key_ok(
                    NodeKind::Folder,
                    (#[trigger] F[i]).0,
                ) by {}
            }
            assert(dec_env(F) == Option::Some(env));
            assert(!jv_has(F, k_root())) by {
                lemma_jv_get_none(F, k_root());
            }
            if children.len() == 0 {
                assert(jv_get(F, k_children()) is None) by {
                    lemma_jv_get_none(F, k_children());
                }
                assert(children =~= Seq::<NodeVal>::empty());
                assert(dec_node(enc_node(n)) == Option::Some(n));
            } else {
                assert(F[8] == (k_children(), JsonVal::Arr(enc_nodes(children))));
                lemma_jv_get_at(F, k_children(), 8);
                assert(jv_get(F, k_children()) == Option::Some(JsonVal::Arr(enc_nodes(children))));
                lemma_enc_nodes_index(children);
                lemma_nodes_wf_index(children);
                assert forall|i: int| 0 <= i < enc_nodes(children).len() implies (
                #[trigger] dec_node(enc_nodes(children)[i])) == Option::Some(children[i]) by {
                    assert(decreases_to!(n => children));
                    assert(decreases_to!(children => children[i]));
                    lemma_node_round_trip(children[i]);
                }
                lemma_dec_nodes_index(enc_nodes(children));
                assert(dec_nodes(enc_nodes(children)) is Some);
                assert(dec_nodes(enc_nodes(children))->Some_0 =~= children);
                assert(dec_node(enc_node(n)) == Option::Some(n));
            }
        },
        NodeVal::Entry { env, uri, tags, charset, icon_uri } => {
            let tags_part = match tags {
                Option::Some(t) => seq![(k_tags(), JsonVal::Str(spec_join(t)))],
                Option::None => Seq::<(Seq<char>, JsonVal)>::empty(),
            };
            let charset_part = match charset {
                Option::Some(c) => seq![(k_charset(), JsonVal::Str(c))],
                Option::None => Seq::<(Seq<char>, JsonVal)>::empty(),
            };
            let icon_part = match icon_uri {
                Option::Some(u) => seq![(k_icon_uri(), JsonVal::Str(u))],
                Option::None => Seq::<(Seq<char>, JsonVal)>::empty(),
            };
            let tail = seq![(k_type(), JsonVal::Str(t_entry())), (k_uri(), JsonVal::Str(uri))]
                + tags_part + charset_part + icon_part;
            let F = enc_env(env) + tail;
            assert(F =~= enc_node(n)->Obj_0);
            assert forall|t: int| 0 <= t < tail.len() implies !env_key(
                (#[trigger] tail[t]).0,
            ) by {}
            lemma_env_lookups(env, tail);
            assert(unique_keys(F)) by {
                assert forall|p: int, q: int|
                    0 <= p < keys_of(F).len() && 0 <= q < keys_of(F).len() && p != q implies keys_of(
                    F,
                )[p] != keys_of(F)[q] by {
                    assert(keys_of(F)[p] == F[p].0);
                    assert(keys_of(F)[q] == F[q].0);
                }
            }
            assert(keys_ok(NodeKind::Entry, F)) by {
                assert forall|i: int| 0 <= i < F.len() implies crate::codec::key_ok(
                    NodeKind::Entry,
                    (#[trigger] F[i]).0,
                ) by {}
            }
            assert(jv_get(tail, k_type()) == Option::Some(JsonVal::Str(t_entry())));
            assert(jv_get(F, k_type()) == Option::Some(JsonVal::Str(t_entry())));
            assert(dec_env(F) == Option::Some(env));
            assert(!jv_has(F, k_root())) by {
                lemma_jv_get_none(F, k_root());
            }
            // The location, right after the discriminator.
            assert(F[8] == (k_uri(), JsonVal::Str(uri)));
            lemma_jv_get_at(F, k_uri(), 8);
            assert(jv_get(F, k_uri()) == Option::Some(JsonVal::Str(uri)));
            // Each optional: found at its place when present, absent when not.
            match tags {
                Option::Some(t) => {
                    assert(F[9] == (k_tags(), JsonVal::Str(spec_join(t))));
                    lemma_jv_get_at(F, k_tags(), 9);
                    crate::tags::lemma_split_join(t);
                    lemma_dedup_id(t);
                    assert(spec_dedup(spec_split(spec_join(t))) == t);
                },
                Option::None => {
                    lemma_jv_get_none(F, k_tags());
                },
            }
            match charset {
                Option::Some(c) => {
                    let ci: int = 9 + tags_part.len() as int;
                    assert(F[ci] == (k_charset(), JsonVal::Str(c)));
                    lemma_jv_get_at(F, k_charset(), ci);
                },
                Option::None => {
                    lemma_jv_get_none(F, k_charset());
                },
            }
            match icon_uri {
                Option::Some(u) => {
                    let ui: int = 9 + tags_part.len() as int + charset_part.len() as int;
                    assert(F[ui] == (k_icon_uri(), JsonVal::Str(u)));
                    lemma_jv_get_at(F, k_icon_uri(), ui);
                },
                Option::None => {
                    lemma_jv_get_none(F, k_icon_uri());
                },
            }
            assert(dec_node(enc_node(n)) == Option::Some(n));
        },
        NodeVal::Separator { env } => {
            let tail = seq![(k_type(), JsonVal::Str(t_separator()))];
            let F = enc_env(env) + tail;
            assert(F =~= enc_node(n)->Obj_0);
            assert forall|t: int| 0 <= t < tail.len() implies !env_key(
                (#[trigger] tail[t]).0,
            ) by {}
            lemma_env_lookups(env, tail);
            assert(unique_keys(F)) by {
                assert forall|p: int, q: int|
                    0 <= p < keys_of(F).len() && 0 <= q < keys_of(F).len() && p != q implies keys_of(
                    F,
                )[p] != keys_of(F)[q] by {
                    assert(keys_of(F)[p] == F[p].0);
                    assert(keys_of(F)[q] == F[q].0);
                }
            }
            assert(keys_ok(NodeKind::Separator, F)) by {
                assert forall|i: int| 0 <= i < F.len() implies crate::codec::key_ok(
                    NodeKind::Separator,
                    (#[trigger] F[i]).0,
                ) by {}
            }
            assert(jv_get(tail, k_type()) == Option::Some(JsonVal::Str(t_separator())));
            assert(jv_get(F, k_type()) == Option::Some(JsonVal::Str(t_separator())));
            assert(dec_env(F) == Option::Some(env));
            assert(!jv_has(F, k_root())) by {
                lemma_jv_get_none(F, k_root());
            }
            assert(dec_node(enc_node(n)) == Option::Some(n));
        },
    }
}

/// Law: decoding an encoded well-formed root returns it unchanged, and an
/// encoded root always carries the root category.
pub proof fn lemma_root_round_trip(r: RootVal)
    requires
        root_wf(r),
    ensures
        dec_root(enc_root(r)) == Option::Some(r),
        enc_root(r) is Obj,
        jv_has(enc_root(r)->Obj_0, k_root()),
{
    lemma_wire_strings_distinct();
    let tail = seq![(k_type(), JsonVal::Str(r.type_str)), (k_root(), JsonVal::Str(r.root))] + (
    if r.children_present {
        seq![(k_children(), JsonVal::Arr(enc_nodes(r.children)))]
    } else {
        Seq::<(Seq<char>, JsonVal)>::empty()
    });
    let F = enc_env(r.env) + tail;
    assert(F =~= enc_root(r)->Obj_0);
    assert forall|t: int| 0 <= t < tail.len() implies !env_key((#[trigger] tail[t]).0) by {}
    lemma_env_lookups(r.env, tail);
    assert(unique_keys(F)) by {
        assert forall|p: int, q: int|
            0 <= p < keys_of(F).len() && 0 <= q < keys_of(F).len() && p != q implies keys_of(
            F,
        )[p] != keys_of(F)[q] by {
            assert(keys_of(F)[p] == F[p].0);
            assert(keys_of(F)[q] == F[q].0);
        }
    }
    assert(keys_ok(NodeKind::Root, F)) by {
        assert forall|i: int| 0 <= i < F.len() implies crate::codec::key_ok(
            NodeKind::Root,
            (#[trigger] F[i]).0,
        ) by {}
    }
    assert(F[7] == (k_type(), JsonVal::Str(r.type_str)));
    assert(F[8] == (k_root(), JsonVal::Str(r.root)));
    lemma_jv_get_at(F, k_type(), 7);
    lemma_jv_get_at(F, k_root(), 8);
    assert(dec_env(F) == Option::Some(r.env));
    if r.children_present {
        assert(F[9] == (k_children(), JsonVal::Arr(enc_nodes(r.children))));
        lemma_jv_get_at(F, k_children(), 9);
        lemma_enc_nodes_index(r.children);
        lemma_nodes_wf_index(r.children);
        assert forall|i: int| 0 <= i < enc_nodes(r.children).len() implies (#[trigger] dec_node(
            enc_nodes(r.children)[i],
        )) == Option::Some(r.children[i]) by {
            lemma_node_round_trip(r.children[i]);
        }
        lemma_dec_nodes_index(enc_nodes(r.children));
        assert(dec_nodes(enc_nodes(r.children)) is Some);
        assert(dec_nodes(enc_nodes(r.children))->Some_0 =~= r.children);
        assert(dec_root(enc_root(r)) == Option::Some(r));
    } else {
        lemma_jv_get_none(F, k_children());
        assert(r.children =~= Seq::<NodeVal>::empty());
        assert(dec_root(enc_root(r)) == Option::Some(r));
    }
}

/// A well-formed document shape.
pub open spec fn docval_wf(d: DocumentVal) -> bool {
    match d {
        DocumentVal::Root(r) => root_wf(r),
        DocumentVal::Node(n) => node_wf(n),
    }
}

/// Law: decoding an encoded well-formed document returns it unchanged — the
/// value round trip of the whole codec.
pub proof fn lemma_document_round_trip(d: DocumentVal)
    requires
        docval_wf(d),
    ensures
        dec_document(enc_document(d)) == Option::Some(d),
{
    match d {
        DocumentVal::Root(r) => {
            lemma_root_round_trip(r);
        },
        DocumentVal::Node(n) => {
            lemma_node_round_trip(n);
        },
    }
}

/// Law: a folder with no children is encoded without the children key, not
/// with an empty array.
pub proof fn lemma_empty_children_suppressed(env: EnvelopeVal)
    ensures
        !jv_has(
            enc_node(NodeVal::Folder { env, children: Seq::<NodeVal>::empty() })->Obj_0,
            k_children(),
        ),
{
    lemma_wire_strings_distinct();
    let n = NodeVal::Folder { env, children: Seq::<NodeVal>::empty() };
    let F = enc_node(n)->Obj_0;
    assert(F =~= enc_env(env) + seq![(k_type(), JsonVal::Str(t_container()))]);
    lemma_jv_get_none(F, k_children());
}

/// Law: an entry's absent optional fields are encoded without their keys,
/// never as nulls — indeed no encoded entry field is ever null.
pub proof fn lemma_absent_optionals_suppressed(
    env: EnvelopeVal,
    uri: Seq<char>,
    tags: Option<Seq<Seq<char>>>,
    charset: Option<Seq<char>>,
    icon_uri: Option<Seq<char>>,
)
    ensures
        tags is None ==> !jv_has(
            enc_node(NodeVal::Entry { env, uri, tags, charset, icon_uri })->Obj_0,
            k_tags(),
        ),
        charset is None ==> !jv_has(
            enc_node(NodeVal::Entry { env, uri, tags, charset, icon_uri })->Obj_0,
            k_charset(),
        ),
        icon_uri is None ==> !jv_has(
            enc_node(NodeVal::Entry { env, uri, tags, charset, icon_uri })->Obj_0,
            k_icon_uri(),
        ),
        forall|i: int|
            0 <= i < enc_node(NodeVal::Entry { env, uri, tags, charset, icon_uri })->Obj_0.len()
                ==> !((#[trigger] enc_node(
                NodeVal::Entry { env, uri, tags, charset, icon_uri },
            )->Obj_0[i]).1 is Null),
{
    lemma_wire_strings_distinct();
    let n = NodeVal::Entry { env, uri, tags, charset, icon_uri };
    let F = enc_node(n)->Obj_0;
    if tags is None {
        lemma_jv_get_none(F, k_tags());
    }
    if charset is None {
        lemma_jv_get_none(F, k_charset());
    }
    if icon_uri is None {
        lemma_jv_get_none(F, k_icon_uri());
    }
}

/// A key is present exactly when it is among the object's keys.
pub proof fn lemma_jv_has_contains(fields: Seq<(Seq<char>, JsonVal)>, k: Seq<char>)
    ensures
        jv_has(fields, k) <==> keys_of(fields).contains(k),
    decreases fields.len(),
{
    if fields.len() > 0 {
        lemma_jv_has_contains(fields.drop_first(), k);
        if fields[0].0 == k {
            assert(keys_of(fields)[0] == k);
        } else {
            if keys_of(fields.drop_first()).contains(k) {
                let i = choose|i: int|
                    0 <= i < keys_of(fields.drop_first()).len() && keys_of(fields.drop_first())[i]
                        == k;
                assert(keys_of(fields)[i + 1] == k);
            }
            if keys_of(fields).contains(k) {
                let i = choose|i: int| 0 <= i < keys_of(fields).len() && keys_of(fields)[i] == k;
                assert(i > 0);
                assert(keys_of(fields.drop_first())[i - 1] == k);
            }
        }
    } else {
        if keys_of(fields).contains(k) {
            let i = choose|i: int| 0 <= i < keys_of(fields).len() && keys_of(fields)[i] == k;
        }
    }
}

/// A document in the codec's own output form: no folder spells out an empty
/// children array, and no tag string repeats a segment. Whatever the codec
/// encodes has this form, and only such documents can be reproduced exactly.
pub open spec fn node_canon(j: JsonVal) -> bool
    decreases j,
    via node_canon_dec
{
    match j {
        JsonVal::Obj(fields) => {
            &&& match jv_get(fields, k_tags()) {
                Option::Some(JsonVal::Str(s)) => spec_split(s).no_duplicates(),
                _ => true,
            }
            &&& match jv_get(fields, k_children()) {
                Option::Some(JsonVal::Arr(items)) => items.len() > 0 && nodes_canon(items),
                _ => true,
            }
        },
        _ => true,
    }
}

/// Whether every document of a sequence has the codec's output form.
pub open spec fn nodes_canon(items: Seq<JsonVal>) -> bool
    decreases items,
{
    if items.len() == 0 {
        true
    } else {
        node_canon(items[0]) && nodes_canon(items.subrange(1, items.len() as int))
    }
}

#[via_fn]
proof fn node_canon_dec(j: JsonVal) {
    match j {
        JsonVal::Obj(fields) => {
            crate::json::lemma_jv_get_member(fields, k_children());
            if jv_get(fields, k_children()) is Some {
                let v = jv_get(fields, k_children())->Some_0;
                let i = choose|i: int|
                    0 <= i < fields.len() && #[trigger] fields[i] == (k_children(), v);
                assert(fields == j->Obj_0);
                assert(decreases_to!(j => j->Obj_0));
                assert(decreases_to!(fields => fields[i]));
                assert(decreases_to!(fields[i] => fields[i].1));
                if v is Arr {
                    assert(decreases_to!(v => v->Arr_0));
                }
            }
        },
        _ => {},
    }
}

/// The root's output form: its children array may be empty, its child
/// subtrees have the codec's output form.
pub open spec fn root_canon(j: JsonVal) -> bool {
    match j {
        JsonVal::Obj(fields) => match jv_get(fields, k_children()) {
            Option::Some(JsonVal::Arr(items)) => nodes_canon(items),
            _ => true,
        },
        _ => true,
    }
}

/// A whole document in the codec's output form.
pub open spec fn doc_canon(j: JsonVal) -> bool {
    match j {
        JsonVal::Obj(fields) => {
            if jv_has(fields, k_root()) {
                root_canon(j)
            } else {
                node_canon(j)
            }
        },
        _ => true,
    }
}

/// Each document of a canonical sequence is canonical.
pub proof fn lemma_nodes_canon_index(items: Seq<JsonVal>)
    requires
        nodes_canon(items),
    ensures
        forall|i: int| 0 <= i < items.len() ==> node_canon(#[trigger] items[i]),
    decreases items.len(),
{
    if items.len() > 0 {
        let rest = items.subrange(1, items.len() as int);
        lemma_nodes_canon_index(rest);
        assert forall|i: int| 0 <= i < items.len() implies node_canon(#[trigger] items[i]) by {
            if i > 0 {
                assert(rest[i - 1] == items[i]);
            }
        }
    }
}

/// A decoded envelope pins each required field of the object.
proof fn lemma_dec_env_lookups(y: Seq<(Seq<char>, JsonVal)>, env: EnvelopeVal)
    requires
        dec_env(y) == Option::Some(env),
    ensures
        jv_get(y, k_guid()) == Option::Some(JsonVal::Str(env.guid)),
        jv_get(y, k_title()) == Option::Some(JsonVal::Str(env.title)),
        jv_get(y, k_index()) == Option::Some(JsonVal::Int(env.index)),
        jv_get(y, k_date_added()) == Option::Some(JsonVal::Int(env.date_added)),
        jv_get(y, k_last_modified()) == Option::Some(JsonVal::Int(env.last_modified)),
        jv_get(y, k_id()) == Option::Some(JsonVal::Int(env.id)),
        jv_get(y, k_type_code()) == Option::Some(JsonVal::Int(env.type_code)),
{
}

/// Law: a child-node document that decodes, in the codec's output form, is
/// reproduced exactly by re-encoding the decoded value, under structural
/// JSON equality.
#[verifier::rlimit(100)]
pub proof fn lemma_node_fidelity(j: JsonVal)
    requires
        dec_node(j) is Some,
        node_canon(j),
    ensures
        json_eq(enc_node(dec_node(j)->Some_0), j),
    decreases j,
{
    lemma_wire_strings_distinct();
    let y = j->Obj_0;
    let n = dec_node(j)->Some_0;
    let ty = jv_get(y, k_type())->Some_0->Str_0;
    assert(unique_keys(y));
    if ty == t_container() {
        let env = dec_env(y)->Some_0;
        lemma_dec_env_lookups(y, env);
        let children = (match n {
            NodeVal::Folder { env: e2, children: c2 } => c2,
            _ => Seq::<NodeVal>::empty(),
        });
        assert(n == (NodeVal::Folder { env, children }));
        let tail = seq![(k_type(), JsonVal::Str(t_container()))] + (if children.len() == 0 {
            Seq::<(Seq<char>, JsonVal)>::empty()
        } else {
            seq![(k_children(), JsonVal::Arr(enc_nodes(children)))]
        });
        let x = enc_env(env) + tail;
        assert(x =~= enc_node(n)->Obj_0);
        assert(unique_keys(x)) by {
            assert forall|p: int, q: int|
                0 <= p < keys_of(x).len() && 0 <= q < keys_of(x).len() && p != q implies keys_of(
                x,
            )[p] != keys_of(x)[q] by {
                assert(keys_of(x)[p] == x[p].0);
                assert(keys_of(x)[q] == x[q].0);
            }
        }
        if jv_get(y, k_children()) is None {
            assert(children.len() == 0);
        } else {
            let items = jv_get(y, k_children())->Some_0->Arr_0;
            assert(dec_nodes(items) is Some);
            assert(children == dec_nodes(items)->Some_0);
            assert(items.len() > 0);
            lemma_dec_nodes_index(items);
            assert(children.len() == items.len());
        }
        assert forall|k: Seq<char>| keys_of(y).to_set().contains(k) implies keys_of(
            x,
        ).to_set().contains(k) by {
            lemma_jv_has_contains(y, k);
            let i = choose|i: int| 0 <= i < keys_of(y).len() && keys_of(y)[i] == k;
            assert(y[i].0 == k);
            assert(crate::codec::key_ok(NodeKind::Folder, k));
            if k == k_children() {
                assert(jv_has(y, k_children()));
                assert(children.len() > 0);
                assert(keys_of(x)[8] == k);
            } else if k == k_guid() {
                assert(keys_of(x)[0] == k);
            } else if k == k_title() {
                assert(keys_of(x)[1] == k);
            } else if k == k_index() {
                assert(keys_of(x)[2] == k);
            } else if k == k_date_added() {
                assert(keys_of(x)[3] == k);
            } else if k == k_last_modified() {
                assert(keys_of(x)[4] == k);
            } else if k == k_id() {
                assert(keys_of(x)[5] == k);
            } else {
                assert(k == k_type_code() || k == k_type());
                assert(keys_of(x)[6] == k_type_code() && keys_of(x)[7] == k_type());
            }
        }
        assert forall|k: Seq<char>| keys_of(x).to_set().contains(k) implies keys_of(
            y,
        ).to_set().contains(k) by {
            lemma_jv_has_contains(y, k);
            let i = choose|i: int| 0 <= i < keys_of(x).len() && keys_of(x)[i] == k;
            assert(x[i].0 == k);
            if i == 8 {
                assert(k == k_children());
                assert(jv_has(y, k_children()));
            } else {
                assert(jv_has(y, k));
            }
        }
        assert(keys_of(x).to_set() =~= keys_of(y).to_set());
        keys_of(x).unique_seq_to_set();
        keys_of(y).unique_seq_to_set();
        assert(x.len() == y.len());
        assert forall|i: int|
            #![trigger x[i]]
            0 <= i < x.len() implies (match jv_get(y, x[i].0) {
            Option::Some(v) => json_eq(x[i].1, v),
            Option::None => false,
        }) by {
            if i == 8 {
                let items = jv_get(y, k_children())->Some_0->Arr_0;
                lemma_dec_nodes_index(items);
                lemma_enc_nodes_index(children);
                lemma_nodes_canon_index(items);
                crate::json::lemma_jv_get_member(y, k_children());
                assert forall|p: int| 0 <= p < enc_nodes(children).len() implies json_eq(
                    #[trigger] enc_nodes(children)[p],
                    items[p],
                ) by {
                    let fi = choose|fi: int|
                        0 <= fi < y.len() && #[trigger] y[fi] == (
                            k_children(),
                            jv_get(y, k_children())->Some_0,
                        );
                    assert(decreases_to!(j => j->Obj_0));
                    assert(decreases_to!(y => y[fi]));
                    assert(decreases_to!(y[fi] => y[fi].1));
                    let v = jv_get(y, k_children())->Some_0;
                    assert(decreases_to!(v => v->Arr_0));
                    assert(decreases_to!(items => items[p]));
                    lemma_node_fidelity(items[p]);
                    assert(enc_nodes(children)[p] == enc_node(children[p]));
                    assert(children[p] == dec_node(items[p])->Some_0);
                }
                assert(json_eq(x[i].1, JsonVal::Arr(items)));
            }
        }
        assert(json_eq(JsonVal::Obj(x), JsonVal::Obj(y)));
        assert(enc_node(n) == JsonVal::Obj(x));
        assert(j == JsonVal::Obj(y));
    } else if ty == t_entry() {
        let env = dec_env(y)->Some_0;
        lemma_dec_env_lookups(y, env);
        let uri = jv_get(y, k_uri())->Some_0->Str_0;
        let tags = (match n {
            NodeVal::Entry { tags: t2, .. } => t2,
            _ => Option::None,
        });
        let charset = (match n {
            NodeVal::Entry { charset: c2, .. } => c2,
            _ => Option::None,
        });
        let icon_uri = (match n {
            NodeVal::Entry { icon_uri: u2, .. } => u2,
            _ => Option::None,
        });
        assert(n == (NodeVal::Entry { env, uri, tags, charset, icon_uri }));
        let tags_part = (match tags {
            Option::Some(t) => seq![(k_tags(), JsonVal::Str(spec_join(t)))],
            Option::None => Seq::<(Seq<char>, JsonVal)>::empty(),
        });
        let charset_part = (match charset {
            Option::Some(c) => seq![(k_charset(), JsonVal::Str(c))],
            Option::None => Seq::<(Seq<char>, JsonVal)>::empty(),
        });
        let icon_part = (match icon_uri {
            Option::Some(u) => seq![(k_icon_uri(), JsonVal::Str(u))],
            Option::None => Seq::<(Seq<char>, JsonVal)>::empty(),
        });
        let tail = seq![(k_type(), JsonVal::Str(t_entry())), (k_uri(), JsonVal::Str(uri))]
            + tags_part + charset_part + icon_part;
        let x = enc_env(env) + tail;
        assert(x =~= enc_node(n)->Obj_0);
        assert(unique_keys(x)) by {
            assert forall|p: int, q: int|
                0 <= p < keys_of(x).len() && 0 <= q < keys_of(x).len() && p != q implies keys_of(
                x,
            )[p] != keys_of(x)[q] by {
                assert(keys_of(x)[p] == x[p].0);
                assert(keys_of(x)[q] == x[q].0);
            }
        }
        let ti: int = 9;
        let ci: int = 9 + tags_part.len() as int;
        let ui: int = 9 + tags_part.len() as int + charset_part.len() as int;
        assert forall|k: Seq<char>| keys_of(y).to_set().contains(k) implies keys_of(
            x,
        ).to_set().contains(k) by {
            lemma_jv_has_contains(y, k);
            let i = choose|i: int| 0 <= i < keys_of(y).len() && keys_of(y)[i] == k;
            assert(y[i].0 == k);
            assert(crate::codec::key_ok(NodeKind::Entry, k));
            if k == k_tags() {
                assert(jv_has(y, k_tags()));
                assert(tags is Some);
                assert(keys_of(x)[ti] == k);
            } else if k == k_charset() {
                assert(jv_has(y, k_charset()));
                assert(charset is Some);
                assert(keys_of(x)[ci] == k);
            } else if k == k_icon_uri() {
                assert(jv_has(y, k_icon_uri()));
                assert(icon_uri is Some);
                assert(keys_of(x)[ui] == k);
            } else if k == k_guid() {
                assert(keys_of(x)[0] == k);
            } else if k == k_title() {
                assert(keys_of(x)[1] == k);
            } else if k == k_index() {
                assert(keys_of(x)[2] == k);
            } else if k == k_date_added() {
                assert(keys_of(x)[3] == k);
            } else if k == k_last_modified() {
                assert(keys_of(x)[4] == k);
            } else if k == k_id() {
                assert(keys_of(x)[5] == k);
            } else {
                assert(k == k_type_code() || k == k_type() || k == k_uri());
                assert(keys_of(x)[6] == k_type_code() && keys_of(x)[7] == k_type() && keys_of(
                    x,
                )[8] == k_uri());
            }
        }
        assert forall|k: Seq<char>| keys_of(x).to_set().contains(k) implies keys_of(
            y,
        ).to_set().contains(k) by {
            lemma_jv_has_contains(y, k);
            let i = choose|i: int| 0 <= i < keys_of(x).len() && keys_of(x)[i] == k;
            assert(x[i].0 == k);
            if i < 9 {
                assert(jv_has(y, k));
            } else if i == ti && tags is Some {
                assert(k == k_tags());
                assert(jv_has(y, k_tags()));
            } else if i == ci && charset is Some {
                assert(k == k_charset());
                assert(jv_has(y, k_charset()));
            } else {
                assert(k == k_icon_uri());
                assert(jv_has(y, k_icon_uri()));
            }
        }
        assert(keys_of(x).to_set() =~= keys_of(y).to_set());
        keys_of(x).unique_seq_to_set();
        keys_of(y).unique_seq_to_set();
        assert(x.len() == y.len());
        assert forall|i: int|
            #![trigger x[i]]
            0 <= i < x.len() implies (match jv_get(y, x[i].0) {
            Option::Some(v) => json_eq(x[i].1, v),
            Option::None => false,
        }) by {
            if i == ti && tags is Some {
                let s = jv_get(y, k_tags())->Some_0->Str_0;
                assert(tags == Option::Some(spec_dedup(spec_split(s))));
                assert(spec_split(s).no_duplicates());
                crate::tags::lemma_tags_wire_round_trip(s);
                assert(x[i].1 == JsonVal::Str(s));
            }
        }
        assert(json_eq(JsonVal::Obj(x), JsonVal::Obj(y)));
        assert(enc_node(n) == JsonVal::Obj(x));
        assert(j == JsonVal::Obj(y));
    } else {
        assert(ty == t_separator());
        let env = dec_env(y)->Some_0;
        lemma_dec_env_lookups(y, env);
        assert(n == (NodeVal::Separator { env }));
        let tail = seq![(k_type(), JsonVal::Str(t_separator()))];
        let x = enc_env(env) + tail;
        assert(x =~= enc_node(n)->Obj_0);
        assert(unique_keys(x)) by {
            assert forall|p: int, q: int|
                0 <= p < keys_of(x).len() && 0 <= q < keys_of(x).len() && p != q implies keys_of(
                x,
            )[p] != keys_of(x)[q] by {
                assert(keys_of(x)[p] == x[p].0);
                assert(keys_of(x)[q] == x[q].0);
            }
        }
        assert forall|k: Seq<char>| keys_of(y).to_set().contains(k) implies keys_of(
            x,
        ).to_set().contains(k) by {
            lemma_jv_has_contains(y, k);
            let i = choose|i: int| 0 <= i < keys_of(y).len() && keys_of(y)[i] == k;
            assert(y[i].0 == k);
            assert(crate::codec::key_ok(NodeKind::Separator, k));
            if k == k_guid() {
                assert(keys_of(x)[0] == k);
            } else if k == k_title() {
                assert(keys_of(x)[1] == k);
            } else if k == k_index() {
                assert(keys_of(x)[2] == k);
            } else if k == k_date_added() {
                assert(keys_of(x)[3] == k);
            } else if k == k_last_modified() {
                assert(keys_of(x)[4] == k);
            } else if k == k_id() {
                assert(keys_of(x)[5] == k);
            } else {
                assert(k == k_type_code() || k == k_type());
                assert(keys_of(x)[6] == k_type_code() && keys_of(x)[7] == k_type());
            }
        }
        assert forall|k: Seq<char>| keys_of(x).to_set().contains(k) implies keys_of(
            y,
        ).to_set().contains(k) by {
            lemma_jv_has_contains(y, k);
            let i = choose|i: int| 0 <= i < keys_of(x).len() && keys_of(x)[i] == k;
            assert(x[i].0 == k);
            assert(jv_has(y, k));
        }
        assert(keys_of(x).to_set() =~= keys_of(y).to_set());
        keys_of(x).unique_seq_to_set();
        keys_of(y).unique_seq_to_set();
        assert(x.len() == y.len());
        assert forall|i: int|
            #![trigger x[i]]
            0 <= i < x.len() implies (match jv_get(y, x[i].0) {
            Option::Some(v) => json_eq(x[i].1, v),
            Option::None => false,
        }) by {}
        assert(json_eq(JsonVal::Obj(x), JsonVal::Obj(y)));
        assert(enc_node(n) == JsonVal::Obj(x));
        assert(j == JsonVal::Obj(y));
    }
}

/// Law: a root document that decodes, in the codec's output form, is
/// reproduced exactly by re-encoding the decoded value.
#[verifier::rlimit(100)]
pub proof fn lemma_root_fidelity(j: JsonVal)
    requires
        dec_root(j) is Some,
        root_canon(j),
    ensures
        json_eq(enc_root(dec_root(j)->Some_0), j),
{
    lemma_wire_strings_distinct();
    let y = j->Obj_0;
    let r = dec_root(j)->Some_0;
    assert(unique_keys(y));
    let env = dec_env(y)->Some_0;
    lemma_dec_env_lookups(y, env);
    let tail = seq![(k_type(), JsonVal::Str(r.type_str)), (k_root(), JsonVal::Str(r.root))] + (
    if r.children_present {
        seq![(k_children(), JsonVal::Arr(enc_nodes(r.children)))]
    } else {
        Seq::<(Seq<char>, JsonVal)>::empty()
    });
    let x = enc_env(env) + tail;
    assert(x =~= enc_root(r)->Obj_0);
    assert(unique_keys(x)) by {
        assert forall|p: int, q: int|
            0 <= p < keys_of(x).len() && 0 <= q < keys_of(x).len() && p != q implies keys_of(
            x,
        )[p] != keys_of(x)[q] by {
            assert(keys_of(x)[p] == x[p].0);
            assert(keys_of(x)[q] == x[q].0);
        }
    }
    if jv_get(y, k_children()) is None {
        assert(!r.children_present);
    } else {
        let items = jv_get(y, k_children())->Some_0->Arr_0;
        assert(dec_nodes(items) is Some);
        assert(r.children == dec_nodes(items)->Some_0);
        assert(r.children_present);
        lemma_dec_nodes_index(items);
        assert(r.children.len() == items.len());
    }
    assert forall|k: Seq<char>| keys_of(y).to_set().contains(k) implies keys_of(
        x,
    ).to_set().contains(k) by {
        lemma_jv_has_contains(y, k);
        let i = choose|i: int| 0 <= i < keys_of(y).len() && keys_of(y)[i] == k;
        assert(y[i].0 == k);
        assert(crate::codec::key_ok(NodeKind::Root, k));
        if k == k_children() {
            assert(jv_has(y, k_children()));
            assert(r.children_present);
            assert(keys_of(x)[9] == k);
        } else if k == k_guid() {
            assert(keys_of(x)[0] == k);
        } else if k == k_title() {
            assert(keys_of(x)[1] == k);
        } else if k == k_index() {
            assert(keys_of(x)[2] == k);
        } else if k == k_date_added() {
            assert(keys_of(x)[3] == k);
        } else if k == k_last_modified() {
            assert(keys_of(x)[4] == k);
        } else if k == k_id() {
            assert(keys_of(x)[5] == k);
        } else {
            assert(k == k_type_code() || k == k_type() || k == k_root());
            assert(keys_of(x)[6] == k_type_code() && keys_of(x)[7] == k_type() && keys_of(x)[8]
                == k_root());
        }
    }
    assert forall|k: Seq<char>| keys_of(x).to_set().contains(k) implies keys_of(
        y,
    ).to_set().contains(k) by {
        lemma_jv_has_contains(y, k);
        let i = choose|i: int| 0 <= i < keys_of(x).len() && keys_of(x)[i] == k;
        assert(x[i].0 == k);
        if i == 9 {
            assert(k == k_children());
            assert(jv_has(y, k_children()));
        } else {
            assert(jv_has(y, k));
        }
    }
    assert(keys_of(x).to_set() =~= keys_of(y).to_set());
    keys_of(x).unique_seq_to_set();
    keys_of(y).unique_seq_to_set();
    assert(x.len() == y.len());
    assert forall|i: int|
        #![trigger x[i]]
        0 <= i < x.len() implies (match jv_get(y, x[i].0) {
        Option::Some(v) => json_eq(x[i].1, v),
        Option::None => false,
    }) by {
        if i == 9 {
            let items = jv_get(y, k_children())->Some_0->Arr_0;
            lemma_dec_nodes_index(items);
            lemma_enc_nodes_index(r.children);
            lemma_nodes_canon_index(items);
            assert forall|p: int| 0 <= p < enc_nodes(r.children).len() implies json_eq(
                #[trigger] enc_nodes(r.children)[p],
                items[p],
            ) by {
                lemma_node_fidelity(items[p]);
                assert(enc_nodes(r.children)[p] == enc_node(r.children[p]));
                assert(r.children[p] == dec_node(items[p])->Some_0);
            }
            assert(json_eq(x[i].1, JsonVal::Arr(items)));
        }
    }
    assert(json_eq(JsonVal::Obj(x), JsonVal::Obj(y)));
    assert(enc_root(r) == JsonVal::Obj(x));
    assert(j == JsonVal::Obj(y));
}

/// Law: the full document round trip. A document that decodes, in the
/// codec's output form, is reproduced exactly — under structural JSON
/// equality — by encoding the decoded value; and every decoded value, once
/// encoded, decodes back to itself. Together with
/// [`lemma_document_round_trip`] this is the codec's fidelity guarantee.
pub proof fn lemma_document_fidelity(j: JsonVal)
    requires
        dec_document(j) is Some,
        doc_canon(j),
    ensures
        json_eq(enc_document(dec_document(j)->Some_0), j),
{
    let y = j->Obj_0;
    if jv_has(y, k_root()) {
        lemma_root_fidelity(j);
    } else {
        lemma_node_fidelity(j);
    }
}

/// Law: among documents that decode at all, the root category alone settles/// Law: among documents that decode at all, the root category alone settles/// Law: among documents that decode at all, the root category alone settles/// Law: among documents that decode at all, the root category alone settles/// Law: among documents that decode at all, the root category alone settles
/// the shape: with it the document decodes as the root, without it as a
/// child node, the identical discriminator strings notwithstanding.
pub proof fn lemma_root_folder_disambiguation(j: JsonVal)
    requires
        dec_document(j) is Some,
    ensures
        j is Obj,
        (dec_document(j)->Some_0 is Root) <==> jv_has(j->Obj_0, k_root()),
{
}

} // verus!
