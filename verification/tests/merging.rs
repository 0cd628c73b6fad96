use magic_mount::custom::CustomModule;
use magic_mount::fs::FsNode;
use magic_mount::merge::{open_custom_dir, ModuleEntry, ModuleIterator, Step};
use magic_mount::module_list::{ModuleInfo, ModuleList};
use magic_mount::name_map::NameMap;
use magic_mount::node::Node;
use magic_mount::tree::{is_replace_name, tree_module};

fn b(s: &str) -> Vec<u8> {
    s.as_bytes().to_vec()
}

fn put_parts(node: &mut FsNode, parts: &[&str], leaf: FsNode) {
    if parts.len() == 1 {
        assert!(node.add(b(parts[0]), leaf));
        return;
    }
    match node {
        FsNode::Dir { entries } => {
            let name = b(parts[0]);
            if !entries.contains_key(&name) {
                entries.insert_new(b(parts[0]), FsNode::empty_dir());
            }
            let (i, found) = entries.search(&name);
            assert!(found);
            put_parts(&mut entries.values[i], &parts[1..], leaf);
        }
        _ => panic!("not a directory"),
    }
}

fn put(node: &mut FsNode, path: &str, leaf: FsNode) {
    let parts: Vec<&str> = path.split('/').filter(|p| !p.is_empty()).collect();
    put_parts(node, &parts, leaf);
}

fn tree(files: &[(&str, FsNode)]) -> FsNode {
    let mut root = FsNode::empty_dir();
    for (path, node) in files {
        put(&mut root, path, copy(node));
    }
    root
}

fn copy(node: &FsNode) -> FsNode {
    match node {
        FsNode::Dir { entries } => {
            let mut dir = FsNode::empty_dir();
            for i in 0..entries.names.len() {
                assert!(dir.add(entries.names[i].clone(), copy(&entries.values[i])));
            }
            dir
        }
        FsNode::File => FsNode::File,
        FsNode::Symlink { target } => FsNode::Symlink { target: target.clone() },
        FsNode::Whiteout => FsNode::Whiteout,
    }
}

fn link(target: &str) -> FsNode {
    FsNode::Symlink { target: b(target) }
}

fn module(name: &str, dir: FsNode) -> ModuleInfo {
    ModuleInfo { name: b(name), dir: Some(dir) }
}

fn file(src: &str) -> Node {
    Node::File { src: Some(b(src)), is_link: false }
}

fn child<'a>(node: &'a Node, name: &str) -> &'a Node {
    match node {
        Node::Dir { children, .. } => children.get(&b(name)).expect("the child is there"),
        Node::File { .. } => panic!("not a directory"),
    }
}

fn names(node: &Node) -> Vec<String> {
    match node {
        Node::Dir { children, .. } => {
            children.names.iter().map(|n| String::from_utf8_lossy(n).into_owned()).collect()
        }
        Node::File { .. } => panic!("not a directory"),
    }
}

fn flags(node: &Node) -> (bool, bool) {
    match node {
        Node::Dir { exist, replace, .. } => (*exist, *replace),
        Node::File { .. } => panic!("not a directory"),
    }
}

fn drain(iter: &mut ModuleIterator) -> Vec<(String, Option<String>, bool, bool)> {
    let mut out = Vec::new();
    while let Some(entry) = iter.next() {
        match entry {
            ModuleEntry::Dir { name, .. } => {
                out.push((String::from_utf8_lossy(&name).into_owned(), None, false, true));
            }
            ModuleEntry::File { name, path, is_link } => {
                out.push((
                    String::from_utf8_lossy(&name).into_owned(),
                    path.map(|p| String::from_utf8_lossy(&p).into_owned()),
                    is_link,
                    false,
                ));
            }
        }
    }
    out
}

fn leaf(name: &str, path: Option<&str>, is_link: bool) -> (String, Option<String>, bool, bool) {
    (name.to_string(), path.map(|p| p.to_string()), is_link, false)
}

fn dir(name: &str) -> (String, Option<String>, bool, bool) {
    (name.to_string(), None, false, true)
}

#[test]
fn later_module_is_read_first_and_wins() {
    let infos = vec![
        module("A", tree(&[("system/x", FsNode::File), ("system/only_a", FsNode::File)])),
        module("B", tree(&[("system/x", FsNode::File), ("system/only_b", FsNode::File)])),
    ];
    let mut list = ModuleList::from_module_infos(&infos, &b("/m"));
    let mut iter = list.iter(&b("system"));
    assert_eq!(
        drain(&mut iter),
        vec![
            leaf("only_b", Some("/m/B/system/only_b"), false),
            leaf("x", Some("/m/B/system/x"), false),
            leaf("only_a", Some("/m/A/system/only_a"), false),
        ]
    );
    assert!(iter.next().is_none());
}

#[test]
fn duplicate_does_not_end_the_reading_of_its_source() {
    let infos = vec![
        module("A", tree(&[("system/a", FsNode::File), ("system/m", FsNode::File), ("system/z", FsNode::File)])),
        module("B", tree(&[("system/m", FsNode::File)])),
    ];
    let mut list = ModuleList::from_module_infos(&infos, &b("/m"));
    let mut iter = list.iter(&b("system"));
    assert_eq!(
        drain(&mut iter),
        vec![
            leaf("m", Some("/m/B/system/m"), false),
            leaf("a", Some("/m/A/system/a"), false),
            leaf("z", Some("/m/A/system/z"), false),
        ]
    );
}

#[test]
fn kinds_of_real_entries_become_leaves() {
    let infos = vec![module(
        "A",
        tree(&[
            ("system/file", FsNode::File),
            ("system/gone", FsNode::Whiteout),
            ("system/link", link("../target")),
            ("system/sub/inner", FsNode::File),
        ]),
    )];
    let mut list = ModuleList::from_module_infos(&infos, &b("/m"));
    let mut iter = list.iter(&b("system"));
    assert_eq!(
        drain(&mut iter),
        vec![
            leaf("file", Some("/m/A/system/file"), false),
            leaf("gone", None, false),
            leaf("link", Some("../target"), true),
            dir("sub"),
        ]
    );
}

#[test]
fn whiteout_of_the_winner_overrides_a_file_below() {
    let infos = vec![
        module("A", tree(&[("system/x", FsNode::File)])),
        module("B", tree(&[("system/x", FsNode::Whiteout)])),
    ];
    let mut list = ModuleList::from_module_infos(&infos, &b("/m"));
    let mut iter = list.iter(&b("system"));
    assert_eq!(drain(&mut iter), vec![leaf("x", None, false)]);
}

#[test]
fn file_of_the_winner_overrides_a_whiteout_below() {
    let infos = vec![
        module("A", tree(&[("system/x", FsNode::Whiteout)])),
        module("B", tree(&[("system/x", FsNode::File)])),
    ];
    let mut list = ModuleList::from_module_infos(&infos, &b("/m"));
    let mut iter = list.iter(&b("system"));
    assert_eq!(drain(&mut iter), vec![leaf("x", Some("/m/B/system/x"), false)]);
}

#[test]
fn directories_of_one_name_are_merged_from_all_sources() {
    let infos = vec![
        module("A", tree(&[("system/lib/a.so", FsNode::File), ("system/lib/both.so", FsNode::File)])),
        module("B", tree(&[("system/lib/b.so", FsNode::File), ("system/lib/both.so", FsNode::File)])),
        module("C", tree(&[("system/lib", FsNode::File)])),
    ];
    let mut list = ModuleList::from_module_infos(&infos, &b("/m"));
    let mut iter = list.iter(&b("system"));
    assert_eq!(drain(&mut iter), vec![leaf("lib", Some("/m/C/system/lib"), false)]);

    let two = vec![
        module("A", tree(&[("system/lib/a.so", FsNode::File), ("system/lib/both.so", FsNode::File)])),
        module("B", tree(&[("system/lib/b.so", FsNode::File), ("system/lib/both.so", FsNode::File)])),
        module("C", tree(&[("system/other", FsNode::File)])),
    ];
    let mut list = ModuleList::from_module_infos(&two, &b("/m"));
    let mut iter = list.iter(&b("system"));
    let first = iter.next().expect("an entry");
    assert!(matches!(&first, ModuleEntry::File { name, .. } if name == &b("other")));
    let second = iter.next().expect("an entry");
    match second {
        ModuleEntry::Dir { name, iter: mut sub } => {
            assert_eq!(name, b("lib"));
            assert_eq!(
                drain(&mut sub),
                vec![
                    leaf("b.so", Some("/m/B/system/lib/b.so"), false),
                    leaf("both.so", Some("/m/B/system/lib/both.so"), false),
                    leaf("a.so", Some("/m/A/system/lib/a.so"), false),
                ]
            );
        }
        ModuleEntry::File { .. } => panic!("a directory was expected"),
    }
    assert!(iter.next().is_none());
}

#[test]
fn real_entry_wins_over_a_virtual_one() {
    let infos = vec![module("A", tree(&[("system/bin/su", FsNode::File)]))];
    let mut list = ModuleList::from_module_infos(&infos, &b("/m"));
    list.inject_magisk_bins(&b("/system/bin"), &b("/tmp"));
    let mut iter = list.iter(&b("system"));
    let entry = iter.next().expect("an entry");
    match entry {
        ModuleEntry::Dir { name, iter: mut sub } => {
            assert_eq!(name, b("bin"));
            assert_eq!(
                drain(&mut sub),
                vec![
                    leaf("su", Some("/m/A/system/bin/su"), false),
                    leaf("magisk", Some("/tmp/magisk"), false),
                    leaf("magiskpolicy", Some("/tmp/magiskpolicy"), false),
                    leaf("resetprop", Some("./magisk"), true),
                    leaf("supolicy", Some("./magiskpolicy"), true),
                ]
            );
        }
        ModuleEntry::File { .. } => panic!("a directory was expected"),
    }
    assert!(iter.next().is_none());
}

#[test]
fn later_virtual_tree_wins_over_an_earlier_one() {
    let infos: Vec<ModuleInfo> = Vec::new();
    let mut list = ModuleList::from_module_infos(&infos, &b("/m"));
    let mut low: NameMap<CustomModule> = NameMap::new();
    assert!(low.insert_entry(&b("system/x"), &b("low"), false));
    assert!(low.insert_entry(&b("system/only_low"), &b("low"), true));
    let mut high: NameMap<CustomModule> = NameMap::new();
    assert!(high.insert_entry(&b("system/x"), &b("high"), false));
    list.push_custom(low);
    list.push_custom(high);
    let mut iter = list.iter(&b("system"));
    assert_eq!(drain(&mut iter), vec![leaf("x", Some("high"), false), leaf("only_low", Some("low"), true)]);
}

#[test]
fn empty_sources_yield_nothing() {
    let infos: Vec<ModuleInfo> = Vec::new();
    let mut list = ModuleList::from_module_infos(&infos, &b("/m"));
    let mut iter = list.iter(&b("system"));
    assert!(iter.next().is_none());
    assert!(iter.next().is_none());
}

#[test]
fn replace_name_is_recognized() {
    assert!(is_replace_name(&b(".replace")));
    assert!(!is_replace_name(&b(".replace2")));
    assert!(!is_replace_name(&b("replace")));
    assert!(!is_replace_name(&b("")));
}

#[test]
fn tree_keeps_a_directory_whose_files_cover_real_files() {
    let infos = vec![module("A", tree(&[("system/bin/ls", FsNode::File), ("system/etc/hosts", FsNode::File)]))];
    let root = tree(&[("system/bin/ls", FsNode::File), ("system/etc/hosts", FsNode::File)]);
    let mut list = ModuleList::from_module_infos(&infos, &b("/m"));
    let mut iter = list.iter(&b("system"));
    let node = tree_module(root.lookup(&b("system")), &mut iter, &mut Vec::new());
    assert_eq!(flags(&node), (true, false));
    assert_eq!(names(&node), vec!["bin", "etc"]);
    assert_eq!(flags(child(&node, "bin")), (true, false));
    assert_eq!(child(child(&node, "bin"), "ls"), &file("/m/A/system/bin/ls"));
    assert_eq!(child(child(&node, "etc"), "hosts"), &file("/m/A/system/etc/hosts"));
}

#[test]
fn tree_marks_what_forces_staging() {
    let root = tree(&[
        ("system/a/file", FsNode::File),
        ("system/b/file", link("x")),
        ("system/c/file", FsNode::File),
        ("system/d/file", FsNode::File),
        ("system/e/file", FsNode::File),
    ]);
    let infos = vec![module(
        "A",
        tree(&[
            ("system/a/new", FsNode::File),
            ("system/b/file", FsNode::File),
            ("system/c/file", FsNode::Whiteout),
            ("system/d/file", link("y")),
            ("system/e/file", FsNode::File),
            ("system/f/file", FsNode::File),
        ]),
    )];
    let mut list = ModuleList::from_module_infos(&infos, &b("/m"));
    let mut iter = list.iter(&b("system"));
    let node = tree_module(root.lookup(&b("system")), &mut iter, &mut Vec::new());
    assert_eq!(flags(child(&node, "a")), (false, false));
    assert_eq!(flags(child(&node, "b")), (false, false));
    assert_eq!(flags(child(&node, "c")), (false, false));
    assert_eq!(flags(child(&node, "d")), (false, false));
    assert_eq!(flags(child(&node, "e")), (true, false));
    assert_eq!(flags(child(&node, "f")), (false, false));
    assert_eq!(flags(&node), (false, false));
    assert_eq!(child(child(&node, "c"), "file"), &Node::File { src: None, is_link: false });
    assert_eq!(child(child(&node, "d"), "file"), &Node::File { src: Some(b("y")), is_link: true });
}

#[test]
fn tree_over_a_missing_directory_does_not_exist() {
    let root = FsNode::empty_dir();
    let infos = vec![module("A", tree(&[("system/bin/ls", FsNode::File)]))];
    let mut list = ModuleList::from_module_infos(&infos, &b("/m"));
    let mut iter = list.iter(&b("system"));
    let node = tree_module(root.lookup(&b("system")), &mut iter, &mut Vec::new());
    assert_eq!(flags(&node), (false, false));
    assert_eq!(flags(child(&node, "bin")), (false, false));
}

#[test]
fn tree_of_no_sources_is_an_unmodified_empty_directory() {
    let root = tree(&[("system/bin/ls", FsNode::File)]);
    let infos: Vec<ModuleInfo> = Vec::new();
    let mut list = ModuleList::from_module_infos(&infos, &b("/m"));
    let mut iter = list.iter(&b("system"));
    let node = tree_module(root.lookup(&b("system")), &mut iter, &mut Vec::new());
    assert_eq!(flags(&node), (true, false));
    assert!(names(&node).is_empty());
}

#[test]
fn replace_marker_sets_the_flag_and_is_no_child() {
    let root = tree(&[("system/app/Old/old.apk", FsNode::File)]);
    let infos = vec![
        module("A", tree(&[("system/app/.replace", FsNode::File), ("system/app/New/new.apk", FsNode::File)])),
        module("B", tree(&[("system/etc/.replace/inner", FsNode::File)])),
    ];
    let mut list = ModuleList::from_module_infos(&infos, &b("/m"));
    let mut iter = list.iter(&b("system"));
    let node = tree_module(root.lookup(&b("system")), &mut iter, &mut Vec::new());
    let app = child(&node, "app");
    assert_eq!(names(app), vec!["New"]);
    assert_eq!(flags(app).1, true);
    let etc = child(&node, "etc");
    assert_eq!(names(etc), vec![".replace"]);
    assert_eq!(flags(etc).1, false);
    assert_eq!(flags(&node).1, false);
}

#[test]
fn merging_twice_gives_the_same_tree() {
    let root = tree(&[("system/bin/ls", FsNode::File), ("system/lib/libc.so", link("x"))]);
    let infos = vec![
        module("A", tree(&[("system/bin/ls", FsNode::File), ("system/lib/libc.so", FsNode::File)])),
        module("B", tree(&[("system/bin/ls", FsNode::Whiteout), ("system/app/.replace", FsNode::File)])),
    ];
    let mut list = ModuleList::from_module_infos(&infos, &b("/m"));
    list.inject_magisk_bins(&b("/system/bin"), &b("/tmp"));
    let mut first_iter = list.iter(&b("system"));
    let first = tree_module(root.lookup(&b("system")), &mut first_iter, &mut Vec::new());
    let mut again = ModuleList::from_module_infos(&infos, &b("/m"));
    again.inject_magisk_bins(&b("/system/bin"), &b("/tmp"));
    let mut second_iter = again.iter(&b("system"));
    let second = tree_module(root.lookup(&b("system")), &mut second_iter, &mut Vec::new());
    assert_eq!(first, second);
    assert_eq!(names(&first), vec!["app", "bin", "lib"]);
}

#[test]
fn extract_takes_the_child_out() {
    let root = FsNode::empty_dir();
    let infos = vec![module("A", tree(&[("system/vendor/lib/v.so", FsNode::File), ("system/bin/ls", FsNode::File)]))];
    let mut list = ModuleList::from_module_infos(&infos, &b("/m"));
    let mut iter = list.iter(&b("system"));
    let mut node = tree_module(root.lookup(&b("system")), &mut iter, &mut Vec::new());
    let vendor = node.extract(&b("vendor")).expect("vendor is there");
    assert_eq!(names(&vendor), vec!["lib"]);
    assert_eq!(names(&node), vec!["bin"]);
    assert!(node.extract(&b("vendor")).is_none());
    assert!(node.extract(&b("product")).is_none());
    let mut leaf_node = Node::File { src: None, is_link: false };
    assert!(leaf_node.extract(&b("x")).is_none());
    assert_eq!(leaf_node, Node::File { src: None, is_link: false });
}

fn steps(iter: &mut ModuleIterator) -> Vec<String> {
    let mut out = Vec::new();
    loop {
        match iter.step() {
            Step::Entry(ModuleEntry::Dir { name, .. }) => {
                out.push(format!("dir {}", String::from_utf8_lossy(&name)));
            }
            Step::Entry(ModuleEntry::File { name, path, .. }) => {
                let path = path.map(|p| String::from_utf8_lossy(&p).into_owned());
                out.push(format!("leaf {} {:?}", String::from_utf8_lossy(&name), path));
            }
            Step::Dropped { name, is_dir } => {
                out.push(format!("dropped {} {}", String::from_utf8_lossy(&name), is_dir));
            }
            Step::End => return out,
        }
    }
}

#[test]
fn file_of_the_earlier_module_is_dropped_as_a_duplicate() {
    let infos = vec![
        module("A", tree(&[("system/lib/libfoo.so", FsNode::File)])),
        module("B", tree(&[("system/lib/libfoo.so", FsNode::File)])),
    ];
    let mut list = ModuleList::from_module_infos(&infos, &b("/m"));
    let mut iter = list.iter(&b("system"));
    match iter.step() {
        Step::Entry(ModuleEntry::Dir { name, iter: mut lib }) => {
            assert_eq!(name, b("lib"));
            assert_eq!(
                steps(&mut lib),
                vec!["leaf libfoo.so Some(\"/m/B/system/lib/libfoo.so\")", "dropped libfoo.so false"]
            );
            assert!(matches!(lib.step(), Step::End));
        }
        _ => panic!("a directory was expected"),
    }
    assert_eq!(steps(&mut iter), vec!["dropped lib true"]);
}

#[test]
fn every_entry_is_read_once_and_duplicates_are_told() {
    let infos = vec![
        module("A", tree(&[("system/a", FsNode::File), ("system/m", link("x")), ("system/z", FsNode::File)])),
        module("B", tree(&[("system/m", FsNode::File), ("system/z/inner", FsNode::File)])),
    ];
    let mut list = ModuleList::from_module_infos(&infos, &b("/m"));
    let mut custom: NameMap<CustomModule> = NameMap::new();
    assert!(custom.insert_entry(&b("system/a"), &b("virtual"), false));
    assert!(custom.insert_entry(&b("system/v"), &b("virtual"), true));
    assert!(custom.insert_entry(&b("system/z/deep"), &b("virtual"), true));
    list.push_custom(custom);
    let mut iter = list.iter(&b("system"));
    assert_eq!(
        steps(&mut iter),
        vec![
            "leaf m Some(\"/m/B/system/m\")",
            "dir z",
            "leaf a Some(\"/m/A/system/a\")",
            "dropped m false",
            "dropped z false",
            "dropped a false",
            "leaf v Some(\"virtual\")",
        ]
    );
    assert!(matches!(iter.step(), Step::End));
    assert!(iter.next().is_none());
}

#[test]
fn whiteout_named_like_the_marker_is_the_marker() {
    let root = tree(&[("system/app/Old/old.apk", FsNode::File)]);
    let infos = vec![module("A", tree(&[("system/app/.replace", FsNode::Whiteout)]))];
    let mut list = ModuleList::from_module_infos(&infos, &b("/m"));
    let mut iter = list.iter(&b("system"));
    let node = tree_module(root.lookup(&b("system")), &mut iter, &mut Vec::new());
    let app = child(&node, "app");
    assert!(names(app).is_empty());
    assert_eq!(flags(app), (true, true));
}

#[test]
fn tree_reads_the_merge_to_its_end() {
    let root = FsNode::empty_dir();
    let infos = vec![
        module("A", tree(&[("system/a", FsNode::File), ("system/d/x", FsNode::File)])),
        module("B", tree(&[("system/a", FsNode::File)])),
    ];
    let mut list = ModuleList::from_module_infos(&infos, &b("/m"));
    let mut iter = list.iter(&b("system"));
    let node = tree_module(root.lookup(&b("system")), &mut iter, &mut Vec::new());
    assert_eq!(names(&node), vec!["a", "d"]);
    assert!(iter.modules.is_empty());
    assert!(iter.customs.is_empty());
    assert!(matches!(iter.step(), Step::End));
    assert_eq!(iter.collected.names, vec![b("a"), b("d")]);
}

fn virtual_leaf(path: &str, is_link: bool) -> CustomModule {
    CustomModule::File { path: b(path), is_link }
}

fn virtual_dir(children: Vec<(&str, CustomModule)>) -> CustomModule {
    let mut map: NameMap<CustomModule> = NameMap::new();
    for (name, child) in children {
        assert!(map.insert_new(b(name), child).is_none());
    }
    CustomModule::Dir { children: map }
}

#[test]
fn opening_a_name_moves_the_subtree_out_of_its_tree() {
    let mut trees = vec![virtual_dir(vec![
        ("a", virtual_dir(vec![("x", virtual_leaf("p", false))])),
        ("b", virtual_leaf("q", true)),
    ])];
    let opened = open_custom_dir(&mut trees, &b("a"));
    assert_eq!(opened, vec![virtual_dir(vec![("x", virtual_leaf("p", false))])]);
    assert_eq!(trees, vec![virtual_dir(vec![("b", virtual_leaf("q", true))])]);
}

#[test]
fn opening_a_name_leaves_it_in_no_tree_and_keeps_the_rest() {
    let mut trees = vec![
        virtual_dir(vec![("n", virtual_leaf("first", false)), ("k", virtual_leaf("kept", true))]),
        virtual_leaf("no directory", false),
        virtual_dir(vec![("other", virtual_leaf("o", false))]),
        virtual_dir(vec![("n", virtual_dir(vec![("deep", virtual_leaf("d", false))]))]),
        virtual_dir(vec![]),
    ];
    let opened = open_custom_dir(&mut trees, &b("n"));
    assert_eq!(
        opened,
        vec![virtual_leaf("first", false), virtual_dir(vec![("deep", virtual_leaf("d", false))])]
    );
    assert_eq!(
        trees,
        vec![
            virtual_dir(vec![("k", virtual_leaf("kept", true))]),
            virtual_leaf("no directory", false),
            virtual_dir(vec![("other", virtual_leaf("o", false))]),
            virtual_dir(vec![]),
            virtual_dir(vec![]),
        ]
    );
    assert!(open_custom_dir(&mut trees, &b("n")).is_empty());
    assert_eq!(trees.len(), 5);
}

#[test]
fn second_merge_of_a_name_has_no_virtual_sources() {
    let infos = vec![module("A", tree(&[("system/bin/ls", FsNode::File)]))];
    let mut list = ModuleList::from_module_infos(&infos, &b("/m"));
    list.inject_magisk_bins(&b("/system/bin"), &b("/tmp"));
    let first = list.iter(&b("system"));
    assert_eq!(first.modules.len(), 1);
    assert_eq!(first.customs.len(), 1);
    assert!(first.collected.names.is_empty());
    assert_eq!(list.customs, vec![virtual_dir(vec![])]);
    let second = list.iter(&b("system"));
    assert_eq!(second.modules.len(), 1);
    assert!(second.customs.is_empty());
    assert_eq!(list.modules.len(), 1);
}

#[test]
fn reading_takes_the_children_out_of_the_virtual_trees() {
    let infos: Vec<ModuleInfo> = Vec::new();
    let mut list = ModuleList::from_module_infos(&infos, &b("/m"));
    let mut low: NameMap<CustomModule> = NameMap::new();
    assert!(low.insert_entry(&b("system/d/low"), &b("low"), false));
    assert!(low.insert_entry(&b("system/x"), &b("low"), false));
    let mut high: NameMap<CustomModule> = NameMap::new();
    assert!(high.insert_entry(&b("system/d/high"), &b("high"), false));
    list.push_custom(low);
    list.push_custom(high);
    let mut iter = list.iter(&b("system"));
    match iter.step() {
        Step::Entry(ModuleEntry::Dir { name, iter: mut sub }) => {
            assert_eq!(name, b("d"));
            assert_eq!(
                sub.customs,
                vec![
                    virtual_dir(vec![("low", virtual_leaf("low", false))]),
                    virtual_dir(vec![("high", virtual_leaf("high", false))]),
                ]
            );
            assert_eq!(drain(&mut sub), vec![leaf("high", Some("high"), false), leaf("low", Some("low"), false)]);
        }
        _ => panic!("a directory was expected"),
    }
    assert_eq!(iter.customs, vec![virtual_dir(vec![("x", virtual_leaf("low", false))]), virtual_dir(vec![])]);
    assert_eq!(steps(&mut iter), vec!["leaf x Some(\"low\")"]);
    assert!(iter.customs.is_empty());
}

#[test]
fn leaf_among_the_virtual_sources_gives_nothing_and_ends_nothing() {
    let infos = vec![module("A", tree(&[("system/d/real", FsNode::File)]))];
    let mut list = ModuleList::from_module_infos(&infos, &b("/m"));
    let mut low: NameMap<CustomModule> = NameMap::new();
    assert!(low.insert_entry(&b("system/d/low"), &b("low"), false));
    let mut high: NameMap<CustomModule> = NameMap::new();
    assert!(high.insert_entry(&b("system/d"), &b("leaf"), false));
    list.push_custom(low);
    list.push_custom(high);
    let mut iter = list.iter(&b("system"));
    match iter.next() {
        Some(ModuleEntry::Dir { name, iter: mut sub }) => {
            assert_eq!(name, b("d"));
            assert_eq!(sub.customs.len(), 2);
            assert_eq!(
                drain(&mut sub),
                vec![leaf("real", Some("/m/A/system/d/real"), false), leaf("low", Some("low"), false)]
            );
        }
        _ => panic!("a directory was expected"),
    }
    assert!(iter.next().is_none());
}

fn texts(paths: &Vec<Vec<u8>>) -> Vec<String> {
    paths.iter().map(|p| String::from_utf8_lossy(p).into_owned()).collect()
}

#[test]
fn conflicts_are_the_leaves_that_lose_their_name() {
    let root = FsNode::empty_dir();
    let infos = vec![
        module(
            "A",
            tree(&[
                ("system/.replace", FsNode::File),
                ("system/a", FsNode::File),
                ("system/d", link("x")),
                ("system/e/only_a", FsNode::File),
                ("system/z/f", FsNode::File),
            ]),
        ),
        module(
            "B",
            tree(&[
                ("system/a", FsNode::Whiteout),
                ("system/d/inner", FsNode::File),
                ("system/e/both", FsNode::File),
                ("system/z/f", link("y")),
            ]),
        ),
        module(
            "C",
            tree(&[
                ("system/.replace", FsNode::File),
                ("system/a", FsNode::File),
                ("system/e/both", FsNode::File),
                ("system/z/f", FsNode::File),
            ]),
        ),
    ];
    let mut list = ModuleList::from_module_infos(&infos, &b("/m"));
    let mut iter = list.iter(&b("system"));
    let mut conflicts = vec![b("before")];
    let node = tree_module(root.lookup(&b("system")), &mut iter, &mut conflicts);
    assert_eq!(names(&node), vec!["a", "d", "e", "z"]);
    assert_eq!(
        texts(&conflicts),
        vec![
            "before",
            "/m/A/system/.replace",
            "/m/A/system/a",
            "/m/B/system/a",
            "/m/A/system/d",
            "/m/B/system/e/both",
            "/m/A/system/z/f",
            "/m/B/system/z/f",
        ]
    );
}

#[test]
fn virtual_leaves_lose_to_leaves_and_not_to_directories() {
    let root = FsNode::empty_dir();
    let infos = vec![module("A", tree(&[("system/bin/su", FsNode::File), ("system/lib/x", FsNode::File)]))];
    let mut list = ModuleList::from_module_infos(&infos, &b("/m"));
    let mut low: NameMap<CustomModule> = NameMap::new();
    assert!(low.insert_entry(&b("system/bin/su"), &b("low su"), true));
    assert!(low.insert_entry(&b("system/bin/only"), &b("low only"), true));
    assert!(low.insert_entry(&b("system/lib"), &b("low lib"), false));
    let mut high: NameMap<CustomModule> = NameMap::new();
    assert!(high.insert_entry(&b("system/bin/su"), &b("high su"), true));
    assert!(high.insert_entry(&b("system/bin/only"), &b("high only"), true));
    list.push_custom(low);
    list.push_custom(high);
    let mut iter = list.iter(&b("system"));
    let mut conflicts = Vec::new();
    let node = tree_module(root.lookup(&b("system")), &mut iter, &mut conflicts);
    assert_eq!(child(child(&node, "bin"), "only"), &Node::File { src: Some(b("high only")), is_link: true });
    assert_eq!(texts(&conflicts), vec!["low only", "low su", "high su"]);
}

#[test]
fn losers_of_a_name_can_be_asked_after_it_is_yielded() {
    let infos = vec![
        module("A", tree(&[("system/x", FsNode::File), ("system/y", FsNode::File)])),
        module("B", tree(&[("system/x/inner", FsNode::File)])),
        module("C", tree(&[("system/x", FsNode::Whiteout)])),
    ];
    let mut list = ModuleList::from_module_infos(&infos, &b("/m"));
    let mut custom: NameMap<CustomModule> = NameMap::new();
    assert!(custom.insert_entry(&b("system/x"), &b("virtual x"), false));
    assert!(custom.insert_entry(&b("system/y/deep"), &b("virtual deep"), false));
    list.push_custom(custom);
    let mut iter = list.iter(&b("system"));
    assert!(matches!(iter.next(), Some(ModuleEntry::File { path: None, .. })));
    assert_eq!(texts(&iter.lost_to(&b("x"))), vec!["/m/A/system/x", "virtual x"]);
    assert!(matches!(iter.next(), Some(ModuleEntry::File { path: Some(_), .. })));
    assert!(iter.lost_to(&b("y")).is_empty());
    assert!(iter.next().is_none());
}
