use chronicle::commits::{gen_tree_object, gen_tree_structure, handle_commit};
use chronicle::compression::read_compressed_file;
use chronicle::hashing::{gen_random_hash, hash_string};
use chronicle::index::{FileTime, IndexEntry};
use chronicle::tree_node::TreeNode;

#[test]
fn simple_tree_gen() {
    let mut sample_file_hashes: Vec<(String, String)> = Vec::new();
    let rand_hash1 = gen_random_hash().unwrap();
    let rand_hash2 = gen_random_hash().unwrap();
    sample_file_hashes.push((String::from("src/mod.rs"), rand_hash1.clone()));
    sample_file_hashes.push((String::from("utils/primary.rs"), rand_hash2.clone()));

    let mut expected_tree_node = TreeNode::new();
    let src_dir = expected_tree_node.get_or_add_dir(String::from("src"));
    src_dir.add_file(String::from("mod.rs"), rand_hash1);

    let utils_dir = expected_tree_node.get_or_add_dir(String::from("utils"));
    utils_dir.add_file(String::from("primary.rs"), rand_hash2);

    assert_eq!(expected_tree_node, gen_tree_structure(&sample_file_hashes));
}

#[test]
fn random_hashes_are_forty_lowercase_hex_digits() {
    let h = gen_random_hash().unwrap();
    assert_eq!(h.len(), 40);
    assert!(h.chars().all(|c| c.is_ascii_digit() || ('a'..='f').contains(&c)));
}

#[test]
fn tree_structure_nests_directories_and_keeps_last_hash() {
    let staged = vec![
        (String::from("a/b/c.txt"), String::from("h1")),
        (String::from("a/d.txt"), String::from("h2")),
        (String::from("./a/b/c.txt"), String::from("h3")),
        (String::from("a//b/c.txt"), String::from("h4")),
        (String::from("top.txt"), String::from("h5")),
        (String::from(""), String::from("h6")),
    ];
    let root = gen_tree_structure(&staged);
    assert_eq!(root.files, vec![(String::from("top.txt"), String::from("h5"))]);
    assert_eq!(root.subdirs.len(), 2);
    assert_eq!(root.subdirs[0].0, "a");
    assert_eq!(root.subdirs[1].0, ".");
    let a = &root.subdirs[0].1;
    assert_eq!(a.files, vec![(String::from("d.txt"), String::from("h2"))]);
    assert_eq!(a.subdirs[0].0, "b");
    assert_eq!(a.subdirs[0].1.files, vec![(String::from("c.txt"), String::from("h4"))]);
    let dot = &root.subdirs[1].1;
    assert_eq!(dot.subdirs[0].1.subdirs[0].1.files[0].1, "h3");
}

#[test]
fn add_file_replaces_hash_of_same_name() {
    let mut node = TreeNode::new();
    node.add_file(String::from("f"), String::from("1"));
    node.add_file(String::from("g"), String::from("2"));
    node.add_file(String::from("f"), String::from("3"));
    assert_eq!(
        node.files,
        vec![(String::from("f"), String::from("3")), (String::from("g"), String::from("2"))]
    );
}

#[test]
fn get_or_add_dir_returns_existing_directory() {
    let mut node = TreeNode::new();
    node.get_or_add_dir(String::from("d")).add_file(String::from("x"), String::from("1"));
    node.get_or_add_dir(String::from("d")).add_file(String::from("y"), String::from("2"));
    assert_eq!(node.subdirs.len(), 1);
    assert_eq!(node.subdirs[0].1.files.len(), 2);
}

#[test]
fn tree_objects_of_single_file() {
    let staged = vec![(String::from("f.txt"), String::from("abc"))];
    let root = gen_tree_structure(&staged);
    let t = gen_tree_object(&root).unwrap();
    let text = "tree 16\0\n\nblob f.txt\0abc\n";
    assert_eq!(t.hash, hash_string(text));
    assert_eq!(t.objects.len(), 1);
    assert_eq!(read_compressed_file(&t.objects[0].contents).unwrap(), text);
    assert!(t.committed_dirs.is_empty());
}

#[test]
fn tree_objects_children_first() {
    let staged = vec![
        (String::from("d/e/x"), String::from("1")),
        (String::from("y"), String::from("2")),
    ];
    let root = gen_tree_structure(&staged);
    let t = gen_tree_object(&root).unwrap();
    assert_eq!(t.objects.len(), 3);
    assert_eq!(t.committed_dirs, vec![String::from("e"), String::from("d")]);
    let e_body = "\nblob x\u{0}1\n";
    let e_text = format!("tree {}\0\n{}", e_body.len(), e_body);
    let e_hash = hash_string(&e_text);
    assert_eq!(t.objects[0].hash, e_hash);
    let d_text = format!("tree {}\0\n\ntree e\0{}\n", 1 + 7 + 40 + 1, e_hash);
    let d_hash = hash_string(&d_text);
    assert_eq!(t.objects[1].hash, d_hash);
    let root_body = format!("\ntree d\0{}\nblob y\u{0}2\n", d_hash);
    let root_text = format!("tree {}\0\n{}", root_body.len(), root_body);
    assert_eq!(t.hash, hash_string(&root_text));
    assert_eq!(t.objects[2].hash, t.hash);
}

#[test]
fn commit_points_at_root_tree() {
    let t = FileTime { secs: 1, nanos: 2 };
    let entries = vec![(String::from("f.txt"), IndexEntry::new(String::from("abc"), 3, t))];
    let c = handle_commit(&entries, String::from("first")).unwrap();
    assert_eq!(c.objects.len(), 2);
    let tree_hash = hash_string("tree 16\0\n\nblob f.txt\0abc\n");
    let body = format!("tree {}\nfirst", tree_hash);
    let text = format!("commit {}\0\n{}", body.len(), body);
    assert_eq!(c.commit_hash, hash_string(&text));
    assert_eq!(c.objects[1].hash, c.commit_hash);
    assert_eq!(read_compressed_file(&c.objects[1].contents).unwrap(), text);
}

#[test]
fn trees_built_in_different_orders_are_equal() {
    let first = vec![
        (String::from("src/a.rs"), String::from("h1")),
        (String::from("docs/b.md"), String::from("h2")),
        (String::from("src/c.rs"), String::from("h3")),
        (String::from("top.txt"), String::from("h4")),
    ];
    let second = vec![
        (String::from("docs/b.md"), String::from("h2")),
        (String::from("top.txt"), String::from("h4")),
        (String::from("src/c.rs"), String::from("h3")),
        (String::from("src/a.rs"), String::from("h1")),
    ];
    let a = gen_tree_structure(&first);
    let b = gen_tree_structure(&second);
    assert_ne!(a.subdirs[0].0, b.subdirs[0].0);
    assert_eq!(a, b);
}

#[test]
fn trees_with_a_different_hash_or_directory_differ() {
    let base = vec![
        (String::from("src/a.rs"), String::from("h1")),
        (String::from("top.txt"), String::from("h2")),
    ];
    let other_hash = vec![
        (String::from("src/a.rs"), String::from("h9")),
        (String::from("top.txt"), String::from("h2")),
    ];
    let other_dir = vec![
        (String::from("lib/a.rs"), String::from("h1")),
        (String::from("top.txt"), String::from("h2")),
    ];
    let extra_file = vec![
        (String::from("src/a.rs"), String::from("h1")),
        (String::from("top.txt"), String::from("h2")),
        (String::from("src/b.rs"), String::from("h3")),
    ];
    let t = gen_tree_structure(&base);
    assert_ne!(t, gen_tree_structure(&other_hash));
    assert_ne!(t, gen_tree_structure(&other_dir));
    assert_ne!(t, gen_tree_structure(&extra_file));
    assert_ne!(gen_tree_structure(&extra_file), t);
    assert_eq!(t, gen_tree_structure(&base));
}

#[test]
fn an_empty_directory_makes_trees_differ() {
    let mut a = TreeNode::new();
    a.add_file(String::from("f"), String::from("1"));
    let mut b = TreeNode::new();
    b.add_file(String::from("f"), String::from("1"));
    assert_eq!(a, b);
    b.get_or_add_dir(String::from("empty"));
    assert_ne!(a, b);
    assert_ne!(b, a);
}
