use magic_mount::custom::CustomModule;
use magic_mount::name_map::NameMap;

fn b(s: &str) -> Vec<u8> {
    s.as_bytes().to_vec()
}

fn leaf(path: &str, is_link: bool) -> CustomModule {
    CustomModule::File { path: b(path), is_link }
}

fn child<'a>(dir: &'a NameMap<CustomModule>, name: &str) -> &'a CustomModule {
    dir.get(&b(name)).expect("the child is there")
}

fn children<'a>(node: &'a CustomModule) -> &'a NameMap<CustomModule> {
    match node {
        CustomModule::Dir { children } => children,
        CustomModule::File { .. } => panic!("not a directory"),
    }
}

#[test]
fn insert_makes_the_directories_on_the_way() {
    let mut root: NameMap<CustomModule> = NameMap::new();
    assert!(root.insert_entry(&b("/system/lib64/libz.so"), &b("/tmp/magisk"), false));
    assert_eq!(root.len(), 1);
    let system = children(child(&root, "system"));
    let lib = children(child(system, "lib64"));
    assert_eq!(child(lib, "libz.so"), &leaf("/tmp/magisk", false));
}

#[test]
fn insert_without_a_slash_puts_the_leaf_at_the_top() {
    let mut root: NameMap<CustomModule> = NameMap::new();
    assert!(root.insert_entry(&b("su"), &b("./magisk"), true));
    assert_eq!(child(&root, "su"), &leaf("./magisk", true));
}

#[test]
fn insert_passes_over_empty_components() {
    let mut root: NameMap<CustomModule> = NameMap::new();
    assert!(root.insert_entry(&b("//a///b"), &b("t"), false));
    let a = children(child(&root, "a"));
    assert_eq!(child(a, "b"), &leaf("t", false));
    assert_eq!(root.len(), 1);
    assert_eq!(a.len(), 1);
}

#[test]
fn insert_with_a_slash_at_the_end_names_the_empty_leaf() {
    let mut root: NameMap<CustomModule> = NameMap::new();
    assert!(root.insert_entry(&b("a/"), &b("t"), false));
    let a = children(child(&root, "a"));
    assert_eq!(child(a, ""), &leaf("t", false));
}

#[test]
fn insert_rejects_a_path_that_is_taken() {
    let mut root: NameMap<CustomModule> = NameMap::new();
    assert!(root.insert_entry(&b("/system/bin/su"), &b("first"), false));
    assert!(!root.insert_entry(&b("/system/bin/su"), &b("second"), true));
    let bin = children(child(children(child(&root, "system")), "bin"));
    assert_eq!(child(bin, "su"), &leaf("first", false));
    assert_eq!(bin.len(), 1);
}

#[test]
fn insert_rejects_a_leaf_over_a_directory() {
    let mut root: NameMap<CustomModule> = NameMap::new();
    assert!(root.insert_entry(&b("/system/bin/su"), &b("first"), false));
    assert!(!root.insert_entry(&b("/system/bin"), &b("second"), false));
    assert!(matches!(child(children(child(&root, "system")), "bin"), CustomModule::Dir { .. }));
}

#[test]
fn insert_rejects_a_path_through_a_leaf() {
    let mut root: NameMap<CustomModule> = NameMap::new();
    assert!(root.insert_entry(&b("/system/bin"), &b("first"), false));
    assert!(!root.insert_entry(&b("/system/bin/su"), &b("second"), false));
    assert_eq!(child(children(child(&root, "system")), "bin"), &leaf("first", false));
}

#[test]
fn children_stand_in_the_order_of_their_names() {
    let mut root: NameMap<CustomModule> = NameMap::new();
    assert!(root.insert_entry(&b("su"), &b("1"), true));
    assert!(root.insert_entry(&b("magisk"), &b("2"), false));
    assert!(root.insert_entry(&b("resetprop"), &b("3"), true));
    assert_eq!(root.names, vec![b("magisk"), b("resetprop"), b("su")]);
    assert_eq!(root.values, vec![leaf("2", false), leaf("3", true), leaf("1", true)]);
}

#[test]
fn name_map_finds_what_was_put_and_nothing_else() {
    let mut map: NameMap<u32> = NameMap::new();
    assert_eq!(map.insert_new(b("b"), 2), None);
    assert_eq!(map.insert_new(b("a"), 1), None);
    assert_eq!(map.insert_new(b("c"), 3), None);
    assert_eq!(map.insert_new(b("a"), 9), Some(9));
    assert_eq!(map.len(), 3);
    assert_eq!(map.get(&b("a")), Some(&1));
    assert_eq!(map.get(&b("b")), Some(&2));
    assert_eq!(map.get(&b("c")), Some(&3));
    assert_eq!(map.get(&b("d")), None);
    assert!(map.contains_key(&b("b")));
    assert!(!map.contains_key(&b("")));
    assert_eq!(map.search(&b("bb")), (2, false));
    assert_eq!(map.search(&b("c")), (2, true));
}
