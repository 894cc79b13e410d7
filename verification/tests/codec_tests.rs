use bookmarks_collection::codec::{
    decode_bookmark, decode_document, decode_root, encode_bookmark, encode_document, encode_root,
    Document,
};
use bookmarks_collection::json::{get_field, json_equal, Json};
use bookmarks_collection::model::{
    Bookmark, BookmarkEntry, BookmarkFolder, BookmarkSeparator, Envelope, Guid,
};
use bookmarks_collection::tags::Tags;
use bookmarks_collection::timestamp::Timestamp;

fn jstr(x: &str) -> Json {
    Json::Str(x.to_string())
}

fn jint(x: i64) -> Json {
    Json::Int(x)
}

fn jobj(pairs: Vec<(&str, Json)>) -> Json {
    Json::Obj(pairs.into_iter().map(|(k, v)| (k.to_string(), v)).collect())
}

fn env_pairs(guid: &str, title: &str, index: i64, id: i64, type_code: i64) -> Vec<(&'static str, Json)> {
    vec![
        ("guid", jstr(guid)),
        ("title", jstr(title)),
        ("index", jint(index)),
        ("dateAdded", jint(1509553862576000)),
        ("lastModified", jint(1563557348382000)),
        ("id", jint(id)),
        ("typeCode", jint(type_code)),
    ]
}

fn entry_doc() -> Json {
    let mut pairs = env_pairs("szjqsI0NdTuZ", "Bookmark title", 0, 1234, 1);
    pairs.push(("type", jstr("text/x-moz-place")));
    pairs.push(("uri", jstr("https://example.com")));
    jobj(pairs)
}

fn separator_doc() -> Json {
    let mut pairs = env_pairs("ioFmy5yuXCAv", "", 16, 343, 3);
    pairs.push(("type", jstr("text/x-moz-place-separator")));
    jobj(pairs)
}

fn folder_doc(children: Vec<Json>) -> Json {
    let mut pairs = env_pairs("1GXuDpWKuzaZ", "Docs", 23, 1330, 2);
    pairs.push(("type", jstr("text/x-moz-place-container")));
    if !children.is_empty() {
        pairs.push(("children", Json::Arr(children)));
    }
    jobj(pairs)
}

fn root_doc(children: Option<Vec<Json>>) -> Json {
    let mut pairs = env_pairs("root________", "", 0, 1, 2);
    pairs.push(("type", jstr("text/x-moz-place-container")));
    pairs.push(("root", jstr("placesRoot")));
    if let Some(cs) = children {
        pairs.push(("children", Json::Arr(cs)));
    }
    jobj(pairs)
}

fn sample_envelope() -> Envelope {
    Envelope {
        guid: Guid("abcd".to_string()),
        title: "a title".to_string(),
        index: 2,
        date_added: Timestamp::from_micros(1601467891225000),
        last_modified: Timestamp::from_micros(1601658040000000),
        id: 77,
        type_code: 1,
    }
}

#[test]
fn round_trip_whole_document() {
    let doc = root_doc(Some(vec![folder_doc(vec![entry_doc(), separator_doc()])]));
    let decoded = decode_document(&doc).expect("well-formed document must decode");
    let encoded = encode_document(&decoded);
    assert!(json_equal(&encoded, &doc));
    // Decoding the encoded form again gives the same value: its encoding is identical.
    let again = decode_document(&encoded).expect("encoded document must decode");
    let encoded_again = encode_document(&again);
    assert!(json_equal(&encoded_again, &encoded));
}

#[test]
fn round_trip_entry_with_optionals() {
    let mut pairs = env_pairs("irnkVN3Z0Wm8", "Docusaurus", 0, 1329, 1);
    pairs.push(("type", jstr("text/x-moz-place")));
    pairs.push(("uri", jstr("https://github.com/facebook/Docusaurus")));
    pairs.push(("tags", jstr("docs,web")));
    pairs.push(("charset", jstr("UTF-8")));
    pairs.push(("iconUri", jstr("https://assets-cdn.github.com/favicon.ico")));
    let doc = jobj(pairs);
    let decoded = decode_bookmark(&doc).expect("entry must decode");
    let encoded = encode_bookmark(&decoded);
    assert!(json_equal(&encoded, &doc));
}

#[test]
fn empty_children_suppressed() {
    let folder = Bookmark::Folder(BookmarkFolder {
        envelope: sample_envelope(),
        children: Vec::new(),
    });
    let encoded = encode_bookmark(&folder);
    match &encoded {
        Json::Obj(fields) => {
            assert!(get_field(fields, &"children".to_string()).is_none());
        }
        _ => panic!("an encoded folder is an object"),
    }
}

#[test]
fn absent_optionals_omitted_never_null() {
    let entry = Bookmark::Entry(BookmarkEntry {
        envelope: sample_envelope(),
        uri: "https://example.com".to_string(),
        tags: None,
        charset: None,
        icon_uri: None,
    });
    let encoded = encode_bookmark(&entry);
    match &encoded {
        Json::Obj(fields) => {
            assert_eq!(fields.len(), 9);
            assert!(get_field(fields, &"tags".to_string()).is_none());
            assert!(get_field(fields, &"charset".to_string()).is_none());
            assert!(get_field(fields, &"iconUri".to_string()).is_none());
            for (_, v) in fields {
                assert!(!matches!(v, Json::Null));
            }
        }
        _ => panic!("an encoded entry is an object"),
    }
}

#[test]
fn root_folder_disambiguation() {
    let with_root = root_doc(Some(vec![]));
    let without_root = {
        let mut pairs = env_pairs("root________", "", 0, 1, 2);
        pairs.push(("type", jstr("text/x-moz-place-container")));
        pairs.push(("children", Json::Arr(vec![])));
        jobj(pairs)
    };
    let a = decode_document(&with_root).expect("document with the root category decodes");
    let b = decode_document(&without_root).expect("document without the root category decodes");
    assert!(matches!(a, Document::Root(_)));
    assert!(matches!(b, Document::Node(Bookmark::Folder(_))));
}

#[test]
fn root_children_presence_is_kept() {
    let without = root_doc(None);
    let decoded = decode_root(&without).expect("root without children decodes");
    assert!(!decoded.children_present);
    assert!(decoded.children.is_empty());
    let encoded = encode_root(&decoded);
    match &encoded {
        Json::Obj(fields) => assert!(get_field(fields, &"children".to_string()).is_none()),
        _ => panic!("an encoded root is an object"),
    }

    let with_empty = root_doc(Some(vec![]));
    let decoded = decode_root(&with_empty).expect("root with empty children decodes");
    assert!(decoded.children_present);
    assert!(decoded.children.is_empty());
    let encoded = encode_root(&decoded);
    assert!(json_equal(&encoded, &with_empty));
}

#[test]
fn explicit_empty_folder_children_decode_but_are_then_suppressed() {
    // A folder that spells out an empty children array decodes fine, but its
    // re-encoding suppresses the key, so only documents in the codec's own
    // output form are reproduced exactly.
    let mut pairs = env_pairs("1GXuDpWKuzaZ", "Docs", 23, 1330, 2);
    pairs.push(("type", jstr("text/x-moz-place-container")));
    pairs.push(("children", Json::Arr(vec![])));
    let doc = jobj(pairs);
    let decoded = decode_bookmark(&doc).expect("folder with an explicit empty array decodes");
    let encoded = encode_bookmark(&decoded);
    match &encoded {
        Json::Obj(fields) => assert!(get_field(fields, &"children".to_string()).is_none()),
        _ => panic!("an encoded folder is an object"),
    }
    assert!(!json_equal(&encoded, &doc));
}

#[test]
fn missing_discriminator_fails() {
    let mut pairs = env_pairs("szjqsI0NdTuZ", "x", 0, 1, 1);
    pairs.push(("uri", jstr("https://example.com")));
    let child = jobj(pairs);
    assert!(decode_bookmark(&child).is_err());
    // The same child nested under a root fails the whole decode.
    let doc = root_doc(Some(vec![child]));
    assert!(decode_document(&doc).is_err());
}

#[test]
fn unrecognized_discriminator_fails() {
    let mut pairs = env_pairs("szjqsI0NdTuZ", "x", 0, 1, 1);
    pairs.push(("type", jstr("text/x-moz-place-unknown")));
    pairs.push(("uri", jstr("https://example.com")));
    assert!(decode_bookmark(&jobj(pairs)).is_err());
}

#[test]
fn missing_required_field_fails() {
    // No uri on an entry.
    let mut pairs = env_pairs("szjqsI0NdTuZ", "x", 0, 1, 1);
    pairs.push(("type", jstr("text/x-moz-place")));
    assert!(decode_bookmark(&jobj(pairs)).is_err());
    // No guid on a separator.
    let sep = jobj(vec![
        ("title", jstr("")),
        ("index", jint(0)),
        ("dateAdded", jint(0)),
        ("lastModified", jint(0)),
        ("id", jint(1)),
        ("typeCode", jint(3)),
        ("type", jstr("text/x-moz-place-separator")),
    ]);
    assert!(decode_bookmark(&sep).is_err());
}

#[test]
fn mistyped_field_fails() {
    // A string where the timestamp integer belongs.
    let mut pairs = env_pairs("szjqsI0NdTuZ", "x", 0, 1, 1);
    pairs.retain(|(k, _)| *k != "dateAdded");
    pairs.push(("dateAdded", jstr("not-a-number")));
    pairs.push(("type", jstr("text/x-moz-place")));
    pairs.push(("uri", jstr("https://example.com")));
    assert!(decode_bookmark(&jobj(pairs)).is_err());
    // A negative sibling index.
    let mut pairs = env_pairs("szjqsI0NdTuZ", "x", -1, 1, 1);
    pairs.push(("type", jstr("text/x-moz-place")));
    pairs.push(("uri", jstr("https://example.com")));
    assert!(decode_bookmark(&jobj(pairs)).is_err());
    // An integer where the tag string belongs.
    let mut pairs = env_pairs("szjqsI0NdTuZ", "x", 0, 1, 1);
    pairs.push(("type", jstr("text/x-moz-place")));
    pairs.push(("uri", jstr("https://example.com")));
    pairs.push(("tags", jint(5)));
    assert!(decode_bookmark(&jobj(pairs)).is_err());
}

#[test]
fn repeated_or_unknown_field_fails() {
    let mut pairs = env_pairs("szjqsI0NdTuZ", "x", 0, 1, 1);
    pairs.push(("type", jstr("text/x-moz-place")));
    pairs.push(("uri", jstr("https://example.com")));
    pairs.push(("uri", jstr("https://example.org")));
    assert!(decode_bookmark(&jobj(pairs)).is_err());

    let mut pairs = env_pairs("szjqsI0NdTuZ", "x", 0, 1, 1);
    pairs.push(("type", jstr("text/x-moz-place")));
    pairs.push(("uri", jstr("https://example.com")));
    pairs.push(("surprise", jstr("zzz")));
    assert!(decode_bookmark(&jobj(pairs)).is_err());
}

#[test]
fn non_object_fails() {
    assert!(decode_document(&Json::Null).is_err());
    assert!(decode_bookmark(&jint(3)).is_err());
    assert!(decode_root(&Json::Arr(vec![])).is_err());
}

#[test]
fn repeated_tag_segments_decode_but_collapse() {
    // A tag string with a repeated segment decodes to the collapsed set, so
    // its re-encoding is shorter than the source: the other input outside
    // the codec's output form.
    let mut pairs = env_pairs("szjqsI0NdTuZ", "x", 0, 1, 1);
    pairs.push(("type", jstr("text/x-moz-place")));
    pairs.push(("uri", jstr("https://example.com")));
    pairs.push(("tags", jstr("a,a")));
    let doc = jobj(pairs);
    let decoded = decode_bookmark(&doc).expect("entry with repeated tags decodes");
    let encoded = encode_bookmark(&decoded);
    assert!(!json_equal(&encoded, &doc));
    match &encoded {
        Json::Obj(fields) => match get_field(fields, &"tags".to_string()) {
            Some(Json::Str(s)) => assert_eq!(s, "a"),
            _ => panic!("the collapsed tag string is present"),
        },
        _ => panic!("an encoded entry is an object"),
    }
}

#[test]
fn document_decode_of_plain_entry_is_a_node() {
    let doc = entry_doc();
    let decoded = decode_document(&doc).expect("an entry document decodes");
    assert!(matches!(decoded, Document::Node(Bookmark::Entry(_))));
}

#[test]
fn tag_string_round_trips_on_entry() {
    let mut pairs = env_pairs("szjqsI0NdTuZ", "x", 0, 1, 1);
    pairs.push(("type", jstr("text/x-moz-place")));
    pairs.push(("uri", jstr("https://example.com")));
    pairs.push(("tags", jstr("alpha,beta,gamma")));
    let doc = jobj(pairs);
    let decoded = decode_bookmark(&doc).expect("entry with tags decodes");
    match &decoded {
        Bookmark::Entry(e) => {
            let tags: &Tags = e.tags.as_ref().expect("tags are present");
            assert_eq!(tags.items, vec!["alpha", "beta", "gamma"]);
        }
        _ => panic!("an entry was decoded"),
    }
    let encoded = encode_bookmark(&decoded);
    assert!(json_equal(&encoded, &doc));
}
