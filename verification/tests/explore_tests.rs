use bookmarks_collection::explore::{explore_bookmarks, Explorable};
use bookmarks_collection::model::{
    Bookmark, BookmarkEntry, BookmarkFolder, BookmarkRoot, BookmarkSeparator, Envelope, Guid,
};
use bookmarks_collection::timestamp::Timestamp;

fn env(guid: &str) -> Envelope {
    Envelope {
        guid: Guid(guid.to_string()),
        title: guid.to_string(),
        index: 0,
        date_added: Timestamp::from_micros(0),
        last_modified: Timestamp::from_micros(0),
        id: 1,
        type_code: 2,
    }
}

fn sample_root() -> BookmarkRoot {
    // root -> [folder1 -> [entry, separator], folder2 -> [], entry2]
    let entry = Bookmark::Entry(BookmarkEntry {
        envelope: env("entry"),
        uri: "https://example.com".to_string(),
        tags: None,
        charset: None,
        icon_uri: None,
    });
    let sep = Bookmark::Separator(BookmarkSeparator { envelope: env("sep") });
    let folder1 = Bookmark::Folder(BookmarkFolder {
        envelope: env("folder1"),
        children: vec![entry, sep],
    });
    let folder2 = Bookmark::Folder(BookmarkFolder { envelope: env("folder2"), children: vec![] });
    let entry2 = Bookmark::Entry(BookmarkEntry {
        envelope: env("entry2"),
        uri: "https://example.org".to_string(),
        tags: None,
        charset: None,
        icon_uri: None,
    });
    BookmarkRoot {
        envelope: env("root"),
        type_str: "text/x-moz-place-container".to_string(),
        root: "placesRoot".to_string(),
        children: vec![folder1, folder2, entry2],
        children_present: true,
    }
}

#[test]
fn traversal_is_preorder_and_complete() {
    let root = sample_root();
    let visited = explore_bookmarks(&root);
    let names: Vec<&str> = visited.iter().map(|g| g.0.as_str()).collect();
    // Six nodes in all, each exactly once, parents before children,
    // children in sibling order.
    assert_eq!(names, vec!["root", "folder1", "entry", "sep", "folder2", "entry2"]);
}

#[test]
fn traversal_of_folder_starts_at_the_folder() {
    let root = sample_root();
    let folder = match &root.children[0] {
        Bookmark::Folder(f) => f,
        _ => panic!("first child is a folder"),
    };
    let visited = explore_bookmarks(folder);
    let names: Vec<&str> = visited.iter().map(|g| g.0.as_str()).collect();
    assert_eq!(names, vec!["folder1", "entry", "sep"]);
}

#[test]
fn traversal_of_leafless_root_visits_only_the_root() {
    let root = BookmarkRoot {
        envelope: env("lonely"),
        type_str: "text/x-moz-place-container".to_string(),
        root: "placesRoot".to_string(),
        children: vec![],
        children_present: false,
    };
    let visited = explore_bookmarks(&root);
    assert_eq!(visited.len(), 1);
    assert_eq!(visited[0].0, "lonely");
    // The capability surface exposes the children directly as well.
    assert!(root.get_children().is_empty());
    assert_eq!(root.guid().0, "lonely");
}
