use directory_trie::DirectoryTrie;
use directory_trie::TrieError;

#[test]
fn insert_one_get_one() {
    let mut trie = DirectoryTrie::new();
    println!("##INITIAL TRIE##\n{:#?}", trie);
    trie.insert("/tmp/dir1", "Hello World");
    println!(
        "##AFTER /tmp/dir1->\"Hello World\" INSERTION##\n{:#?}",
        trie
    );
    assert_eq!(
        "Hello World",
        trie.get("/tmp/dir1/dir2/textfile.txt").unwrap()
    );
}

#[test]
fn insert_one_get_one_subdirs() {
    let mut trie = DirectoryTrie::new();
    trie.insert("/tmp/dir1", "Hello World");
    assert_eq!(
        "Hello World",
        trie.get("/tmp/dir1/dir2/hello/world/123/321/textfile.txt")
            .unwrap()
    );
}

#[test]
fn insert_three_get_three() {
    let mut trie = DirectoryTrie::new();
    println!("Initial Trie: {:#?}", trie);
    trie.insert("/tmp", "1");
    println!("After /tmp->1 insert trie: {:#?}", trie);
    trie.insert("/tmp/dir1", "3");
    println!("After /tmp/dir1->3 insert: {:#?}", trie);
    trie.insert("/tmp/dir1/dir2", "2");
    println!("After /tmp/dir1/dir2->2 insert {:#?}", trie);
    assert_eq!("1", trie.get("/tmp/not/present/hello.txt").unwrap());
    assert_eq!(
        "2",
        trie.get("/tmp/dir1/dir2/not/present/goodbye.txt").unwrap()
    );
    assert_eq!("3", trie.get("/tmp/dir1/not/present/hello/").unwrap());
}

#[test]
fn test_increasing_path_length() {
    let mut trie = DirectoryTrie::new();
    trie.insert("/tmp", "0".to_string());
    trie.insert("/tmp/1", "1".to_string());
    println!("{:#?}", trie);
    assert_eq!("0".to_string(), trie.get("/tmp").unwrap());
    assert_eq!("1".to_string(), trie.get("/tmp/1").unwrap());
}

#[test]
fn test_increasing_path_length_with_root() {
    let mut trie = DirectoryTrie::new();
    trie.insert("/", "root".to_string());
    trie.insert("/tmp", "0".to_string());
    trie.insert("/tmp/1", "1".to_string());
    println!("{:#?}", trie);
    assert_eq!("root".to_string(), trie.get("/").unwrap());
    assert_eq!("0".to_string(), trie.get("/tmp").unwrap());
    assert_eq!("1".to_string(), trie.get("/tmp/1").unwrap());
}

#[test]
fn empty_trie_yields_nothing() {
    let trie: DirectoryTrie<&str> = DirectoryTrie::new();
    assert!(trie.get("/").is_none());
    assert!(trie.get("/tmp/dir1").is_none());
}

#[test]
fn default_trie_is_empty() {
    let trie: DirectoryTrie<u64> = DirectoryTrie::default();
    assert!(trie.get("/anything").is_none());
}

#[test]
fn absent_ancestors_yield_nothing() {
    let mut trie = DirectoryTrie::new();
    trie.insert("/a/b", 1u64);
    // `/a` exists only as an intermediate node, and `/c` not at all.
    assert!(trie.get("/a").is_none());
    assert!(trie.get("/c").is_none());
    assert!(trie.get("/c/deep/down").is_none());
    assert_eq!(1u64, trie.get("/a/b").unwrap());
}

#[test]
fn empty_path_is_rejected() {
    let mut trie = DirectoryTrie::new();
    assert_eq!(Err(TrieError::InvalidPath), trie.insert("", 1u64));
    // The failed insertion changed nothing.
    assert!(trie.get("/").is_none());
}

#[test]
fn reinsertion_replaces_value() {
    let mut trie = DirectoryTrie::new();
    trie.insert("/a", "first");
    trie.insert("/a", "second");
    assert_eq!("second", trie.get("/a").unwrap());
    trie.insert("/", "r1");
    trie.insert("/", "r2");
    assert_eq!("r2", trie.get("/").unwrap());
}

#[test]
fn root_value_survives_deeper_insertions() {
    let mut trie = DirectoryTrie::new();
    trie.insert("/tmp", "0");
    trie.insert("/", "root");
    trie.insert("/tmp/1", "1");
    assert_eq!("root", trie.get("/").unwrap());
    assert_eq!("0", trie.get("/tmp").unwrap());
    assert_eq!("1", trie.get("/tmp/1").unwrap());
}

#[test]
fn disjoint_insertion_order_is_irrelevant() {
    let mut one = DirectoryTrie::new();
    one.insert("/a", "va");
    one.insert("/b", "vb");
    let mut two = DirectoryTrie::new();
    two.insert("/b", "vb");
    two.insert("/a", "va");
    assert_eq!(one.get("/a/x"), two.get("/a/x"));
    assert_eq!(one.get("/b/x"), two.get("/b/x"));
    assert_eq!(Some("va"), one.get("/a/x"));
    assert_eq!(Some("vb"), one.get("/b/x"));
}

#[test]
fn reinsertion_at_intermediate_keeps_descendants() {
    let mut trie = DirectoryTrie::new();
    // `/tmp` comes into being as an intermediate node here ...
    trie.insert("/tmp/dir1", "3");
    // ... and giving it a value must not discard its child.
    trie.insert("/tmp", "1");
    assert_eq!("3", trie.get("/tmp/dir1/anything").unwrap());
    assert_eq!("1", trie.get("/tmp").unwrap());
    assert_eq!("1", trie.get("/tmp/other").unwrap());
}

#[test]
fn repeated_and_trailing_slashes_collapse() {
    let mut trie = DirectoryTrie::new();
    trie.insert("/tmp/dir1/", "v");
    assert_eq!("v", trie.get("/tmp/dir1").unwrap());
    assert_eq!("v", trie.get("//tmp///dir1/").unwrap());
    trie.insert("///", "slashes");
    assert_eq!("slashes", trie.get("/").unwrap());
}

#[test]
fn components_are_compared_exactly() {
    let mut trie = DirectoryTrie::new();
    trie.insert("/Tmp", "upper");
    trie.insert("/tmp", "lower");
    assert_eq!("upper", trie.get("/Tmp/x").unwrap());
    assert_eq!("lower", trie.get("/tmp/x").unwrap());
    assert!(trie.get("/TMP").is_none());
}

#[test]
fn parse_components_splits_on_slashes() {
    let comps = directory_trie::paths::parse_components("/tmp/dir1");
    assert_eq!(vec!["/".to_string(), "tmp".to_string(), "dir1".to_string()], comps);
    let comps = directory_trie::paths::parse_components("a//b/");
    assert_eq!(vec!["a".to_string(), "b".to_string()], comps);
    let comps = directory_trie::paths::parse_components("///");
    assert_eq!(vec!["/".to_string()], comps);
    let comps = directory_trie::paths::parse_components("");
    assert!(comps.is_empty());
}
