use magic_mount::deploy::{deploy_plan, plan_mounts, Environment, MountSection};
use magic_mount::ffi::zygisk_wanted;
use magic_mount::fs::FsNode;
use magic_mount::module_list::{tmp_path, ModuleInfo, ModuleList};
use magic_mount::name_map::NameMap;
use magic_mount::node::Node;
use magic_mount::ops::{MountOp, Workspace};
use magic_mount::run::{first_step, next_step, Next};

fn b(s: &str) -> Vec<u8> {
    s.as_bytes().to_vec()
}

fn put_parts(node: &mut FsNode, parts: &[&str], leaf: FsNode) {
    if parts.len() == 1 {
        assert!(node.add(b(parts[0]), leaf));
        return;
    }
    match node {
        FsNode::Dir { entries } => {
            let name = b(parts[0]);
            if !entries.contains_key(&name) {
                entries.insert_new(b(parts[0]), FsNode::empty_dir());
            }
            let (i, found) = entries.search(&name);
            assert!(found);
            put_parts(&mut entries.values[i], &parts[1..], leaf);
        }
        _ => panic!("not a directory"),
    }
}

fn put(node: &mut FsNode, path: &str, leaf: FsNode) {
    let parts: Vec<&str> = path.split('/').filter(|p| !p.is_empty()).collect();
    put_parts(node, &parts, leaf);
}

fn link(target: &str) -> FsNode {
    FsNode::Symlink { target: b(target) }
}

fn module(name: &str, dir: FsNode) -> ModuleInfo {
    ModuleInfo { name: b(name), dir: Some(dir) }
}

fn ws() -> Workspace {
    Workspace { tmp: b("/t"), worker: b("w") }
}

fn env(wide: bool) -> Environment {
    Environment { ws: ws(), modules: b("mods"), wide }
}

fn make_dirs(path: &str) -> MountOp {
    MountOp::MakeDirs { path: b(path) }
}

fn make_dir(path: &str) -> MountOp {
    MountOp::MakeDir { path: b(path) }
}

fn create(path: &str) -> MountOp {
    MountOp::CreateFile { path: b(path) }
}

fn attr(from: &str, to: &str) -> MountOp {
    MountOp::CloneAttr { from: b(from), to: b(to) }
}

fn bind(source: &str, target: &str) -> MountOp {
    MountOp::BindMount { source: b(source), target: b(target) }
}

fn symlink(target: &str, link: &str) -> MountOp {
    MountOp::Symlink { target: b(target), link: b(link) }
}

fn dir_node(children: Vec<(&str, Node)>, exist: bool, replace: bool) -> Node {
    let mut map: NameMap<Node> = NameMap::new();
    for (name, child) in children {
        assert!(map.insert_new(b(name), child).is_none());
    }
    Node::Dir { children: map, exist, replace }
}

fn file(src: &str) -> Node {
    Node::File { src: Some(b(src)), is_link: false }
}

fn deletion() -> Node {
    Node::File { src: None, is_link: false }
}

fn link_node(target: &str) -> Node {
    Node::File { src: Some(b(target)), is_link: true }
}

#[test]
fn staging_path_lies_below_the_scratch_directory() {
    assert_eq!(ws().staging_path(&b("/system/bin")), b("/t/w/system/bin"));
    assert_eq!(ws().staging_path(&b("")), b("/t/w"));
}

#[test]
fn deletion_keeps_the_real_entry_out_of_the_staging_directory() {
    let mut root = FsNode::empty_dir();
    put(&mut root, "d/gone", FsNode::File);
    put(&mut root, "d/kept", FsNode::File);
    put(&mut root, "d/gone_dir/inner", FsNode::File);
    let node = dir_node(vec![("gone", deletion()), ("gone_dir", deletion())], false, false);
    let ops = node.mount(&b("/d"), root.lookup(&b("d")), &b("/"), &ws());
    assert_eq!(
        ops,
        vec![
            make_dirs("/t/w/d"),
            attr("/d", "/t/w/d"),
            create("/t/w/d/kept"),
            bind("/d/kept", "/t/w/d/kept"),
            bind("/t/w/d", "/d"),
        ]
    );
}

#[test]
fn deletion_alone_needs_nothing() {
    assert!(deletion().mount(&b("/d/x"), None, &b("/d"), &ws()).is_empty());
}

#[test]
fn link_is_made_in_the_staging_directory_above() {
    let mut root = FsNode::empty_dir();
    put(&mut root, "d/other", link("elsewhere"));
    let node = dir_node(vec![("l", link_node("./target")), ("f", file("/m/f"))], false, false);
    let ops = node.mount(&b("/d"), root.lookup(&b("d")), &b("/"), &ws());
    assert_eq!(
        ops,
        vec![
            make_dirs("/t/w/d"),
            attr("/d", "/t/w/d"),
            create("/t/w/d/f"),
            bind("/m/f", "/t/w/d/f"),
            symlink("./target", "/t/w/d/l"),
            symlink("elsewhere", "/t/w/d/other"),
            attr("/d/other", "/t/w/d/other"),
            bind("/t/w/d", "/d"),
        ]
    );
}

#[test]
fn missing_directory_takes_the_attributes_of_the_nearest_one_above() {
    let mut root = FsNode::empty_dir();
    put(&mut root, "d/x", FsNode::File);
    let inner = dir_node(vec![("f", file("/m/f"))], false, false);
    let middle = dir_node(vec![("c", inner)], false, false);
    let node = dir_node(vec![("b", middle)], false, false);
    let ops = node.mount(&b("/d"), root.lookup(&b("d")), &b("/"), &ws());
    assert_eq!(
        ops,
        vec![
            make_dirs("/t/w/d"),
            attr("/d", "/t/w/d"),
            make_dirs("/t/w/d/b"),
            attr("/d", "/t/w/d/b"),
            make_dirs("/t/w/d/b/c"),
            attr("/d", "/t/w/d/b/c"),
            create("/t/w/d/b/c/f"),
            bind("/m/f", "/t/w/d/b/c/f"),
            create("/t/w/d/x"),
            bind("/d/x", "/t/w/d/x"),
            bind("/t/w/d", "/d"),
        ]
    );
    let alone = dir_node(vec![], false, false);
    assert_eq!(
        alone.mount(&b("/nowhere"), None, &b("/"), &ws()),
        vec![make_dirs("/t/w/nowhere"), attr("/", "/t/w/nowhere"), bind("/t/w/nowhere", "/nowhere")]
    );
}

#[test]
fn staged_directory_below_an_unstaged_one_is_bound_by_itself() {
    let mut root = FsNode::empty_dir();
    put(&mut root, "d/sub/old", FsNode::File);
    put(&mut root, "d/f", FsNode::File);
    let sub = dir_node(vec![("new", file("/m/new"))], true, true);
    let node = dir_node(vec![("sub", sub), ("f", file("/m/f"))], true, false);
    let ops = node.mount(&b("/d"), root.lookup(&b("d")), &b("/"), &ws());
    assert_eq!(
        ops,
        vec![
            attr("/m/f", "/d/f"),
            bind("/m/f", "/d/f"),
            make_dirs("/t/w/d/sub"),
            attr("/d/sub", "/t/w/d/sub"),
            create("/t/w/d/sub/new"),
            bind("/m/new", "/t/w/d/sub/new"),
            bind("/t/w/d/sub", "/d/sub"),
        ]
    );
}

#[test]
fn unmodified_tree_needs_no_staging() {
    let mut root = FsNode::empty_dir();
    put(&mut root, "d/a/f", FsNode::File);
    put(&mut root, "d/a/g", FsNode::File);
    let a = dir_node(vec![("f", file("/m/a/f"))], true, false);
    let node = dir_node(vec![("a", a)], true, false);
    let ops = node.mount(&b("/d"), root.lookup(&b("d")), &b("/"), &ws());
    assert_eq!(ops, vec![attr("/m/a/f", "/d/a/f"), bind("/m/a/f", "/d/a/f")]);
    let other = node.mount(&b("/d"), None, &b("/else"), &Workspace { tmp: b("/other"), worker: b("x") });
    assert_eq!(other, ops);
    let empty = dir_node(vec![("a", dir_node(vec![], true, false))], true, false);
    assert!(empty.mount(&b("/d"), root.lookup(&b("d")), &b("/"), &ws()).is_empty());
}

#[test]
fn mirror_reproduces_directories_with_all_below_them() {
    let mut root = FsNode::empty_dir();
    put(&mut root, "d/keep/deep/file", FsNode::File);
    put(&mut root, "d/keep/l", link("t"));
    put(&mut root, "d/keep/w", FsNode::Whiteout);
    let node = dir_node(vec![("new", file("/m/new"))], false, false);
    let ops = node.mount(&b("/d"), root.lookup(&b("d")), &b("/"), &ws());
    assert_eq!(
        ops,
        vec![
            make_dirs("/t/w/d"),
            attr("/d", "/t/w/d"),
            create("/t/w/d/new"),
            bind("/m/new", "/t/w/d/new"),
            make_dir("/t/w/d/keep"),
            attr("/d/keep", "/t/w/d/keep"),
            make_dir("/t/w/d/keep/deep"),
            attr("/d/keep/deep", "/t/w/d/keep/deep"),
            create("/t/w/d/keep/deep/file"),
            bind("/d/keep/deep/file", "/t/w/d/keep/deep/file"),
            symlink("t", "/t/w/d/keep/l"),
            attr("/d/keep/l", "/t/w/d/keep/l"),
            create("/t/w/d/keep/w"),
            bind("/d/keep/w", "/t/w/d/keep/w"),
            bind("/t/w/d", "/d"),
        ]
    );
}

#[test]
fn parts_with_mount_points_of_their_own_are_taken_out() {
    let mut root = FsNode::empty_dir();
    put(&mut root, "system/bin/sh", FsNode::File);
    put(&mut root, "vendor/lib/v.so", FsNode::File);
    put(&mut root, "product/app/p.apk", FsNode::File);
    let mut a = FsNode::empty_dir();
    put(&mut a, "system/bin/ls", FsNode::File);
    put(&mut a, "system/vendor/lib/v.so", FsNode::File);
    put(&mut a, "system/system_ext/new", FsNode::File);
    put(&mut a, "system/product/app/p.apk", FsNode::Whiteout);
    let list = vec![module("A", a)];
    let sections = deploy_plan(&list, None, None, &root, &env(true)).sections;
    assert_eq!(sections.len(), 4);
    assert_eq!(
        sections[0],
        MountSection {
            dest: b("/product"),
            ops: vec![
                make_dirs("/t/w/product"),
                attr("/product", "/t/w/product"),
                make_dirs("/t/w/product/app"),
                attr("/product/app", "/t/w/product/app"),
                bind("/t/w/product", "/product"),
            ],
            fatal: false,
        }
    );
    assert_eq!(
        sections[1],
        MountSection {
            dest: b("/vendor"),
            ops: vec![
                make_dirs("/t/w/vendor"),
                attr("/vendor", "/t/w/vendor"),
                make_dirs("/t/w/vendor/lib"),
                attr("/vendor/lib", "/t/w/vendor/lib"),
                create("/t/w/vendor/lib/v.so"),
                bind("/t/mods/A/system/vendor/lib/v.so", "/t/w/vendor/lib/v.so"),
                bind("/t/w/vendor", "/vendor"),
            ],
            fatal: false,
        }
    );
    assert_eq!(
        sections[2],
        MountSection {
            dest: b("/system_ext"),
            ops: vec![
                make_dirs("/t/w/system_ext"),
                attr("/", "/t/w/system_ext"),
                create("/t/w/system_ext/new"),
                bind("/t/mods/A/system/system_ext/new", "/t/w/system_ext/new"),
                bind("/t/w/system_ext", "/system_ext"),
            ],
            fatal: false,
        }
    );
    assert_eq!(
        sections[3],
        MountSection {
            dest: b("/system"),
            ops: vec![
                make_dirs("/t/w/system"),
                attr("/system", "/t/w/system"),
                make_dirs("/t/w/system/bin"),
                attr("/system/bin", "/t/w/system/bin"),
                create("/t/w/system/bin/ls"),
                bind("/t/mods/A/system/bin/ls", "/t/w/system/bin/ls"),
                create("/t/w/system/bin/sh"),
                bind("/system/bin/sh", "/t/w/system/bin/sh"),
                bind("/t/w/system", "/system"),
            ],
            fatal: true,
        }
    );
}

#[test]
fn link_in_the_place_of_a_part_is_taken_out_and_not_mounted() {
    let root = FsNode::empty_dir();
    let tree = dir_node(vec![("vendor", link_node("/vendor")), ("f", file("/m/f"))], false, false);
    let sections = plan_mounts(tree, &root, &ws());
    assert_eq!(sections.len(), 1);
    assert_eq!(
        sections[0].ops,
        vec![
            make_dirs("/t/w/system"),
            attr("/", "/t/w/system"),
            create("/t/w/system/f"),
            bind("/m/f", "/t/w/system/f"),
            bind("/t/w/system", "/system"),
        ]
    );
}

#[test]
fn modules_that_do_not_take_part_are_left_out() {
    let mut with_system = FsNode::empty_dir();
    put(&mut with_system, "system/a", FsNode::File);
    let mut skipped = FsNode::empty_dir();
    put(&mut skipped, "system/b", FsNode::File);
    put(&mut skipped, "skip_mount", FsNode::File);
    let mut no_system = FsNode::empty_dir();
    put(&mut no_system, "vendor/c", FsNode::File);
    let mut system_is_file = FsNode::empty_dir();
    put(&mut system_is_file, "system", FsNode::File);
    let infos = vec![
        module("one", with_system),
        module("two", skipped),
        module("three", no_system),
        ModuleInfo { name: b("four"), dir: None },
        ModuleInfo { name: b("five"), dir: Some(FsNode::File) },
        module("six", system_is_file),
    ];
    let mut list = ModuleList::from_module_infos(&infos, &b("/t/mods"));
    let paths: Vec<Vec<u8>> = list.modules.iter().map(|s| s.path.clone()).collect();
    assert_eq!(paths, vec![b("/t/mods/one"), b("/t/mods/six")]);
    assert!(list.customs.is_empty());
    let mut iter = list.iter(&b("system"));
    assert_eq!(iter.modules.len(), 1);
    assert_eq!(iter.modules[0].path, b("/t/mods/one/system"));
    assert!(iter.next().is_some());
    assert!(iter.next().is_none());
}

#[test]
fn tools_are_injected_into_the_asked_directory() {
    let root = FsNode::empty_dir();
    let infos: Vec<ModuleInfo> = Vec::new();
    let sections = deploy_plan(&infos, None, Some(&b("/system/bin")), &root, &env(true)).sections;
    assert_eq!(sections.len(), 1);
    assert_eq!(
        sections[0].ops,
        vec![
            make_dirs("/t/w/system"),
            attr("/", "/t/w/system"),
            make_dirs("/t/w/system/bin"),
            attr("/", "/t/w/system/bin"),
            create("/t/w/system/bin/magisk"),
            bind("/t/magisk", "/t/w/system/bin/magisk"),
            create("/t/w/system/bin/magiskpolicy"),
            bind("/t/magiskpolicy", "/t/w/system/bin/magiskpolicy"),
            symlink("./magisk", "/t/w/system/bin/resetprop"),
            symlink("./magisk", "/t/w/system/bin/su"),
            symlink("./magiskpolicy", "/t/w/system/bin/supolicy"),
            bind("/t/w/system", "/system"),
        ]
    );
}

#[test]
fn library_is_injected_where_the_loaders_are() {
    let mut root = FsNode::empty_dir();
    put(&mut root, "system/bin/linker", FsNode::File);
    put(&mut root, "system/bin/linker64", FsNode::File);
    put(&mut root, "system/lib/libz.so", FsNode::File);
    put(&mut root, "system/lib64/libz.so", FsNode::File);
    let infos: Vec<ModuleInfo> = Vec::new();
    let wide = deploy_plan(&infos, Some(&b("libz.so")), None, &root, &env(true)).sections;
    assert_eq!(
        wide[0].ops,
        vec![
            attr("/t/magisk32", "/system/lib/libz.so"),
            bind("/t/magisk32", "/system/lib/libz.so"),
            attr("/t/magisk", "/system/lib64/libz.so"),
            bind("/t/magisk", "/system/lib64/libz.so"),
        ]
    );
    let narrow = deploy_plan(&infos, Some(&b("libz.so")), None, &root, &env(false)).sections;
    assert_eq!(narrow[0].ops, vec![attr("/t/magisk", "/system/lib/libz.so"), bind("/t/magisk", "/system/lib/libz.so")]);

    let mut only64 = FsNode::empty_dir();
    put(&mut only64, "system/bin/linker64", FsNode::File);
    put(&mut only64, "system/lib64/libz.so", FsNode::File);
    let wide = deploy_plan(&infos, Some(&b("libz.so")), None, &only64, &env(true)).sections;
    assert_eq!(wide[0].ops, vec![attr("/t/magisk", "/system/lib64/libz.so"), bind("/t/magisk", "/system/lib64/libz.so")]);
    let narrow = deploy_plan(&infos, Some(&b("libz.so")), None, &only64, &env(false)).sections;
    assert!(narrow[0].ops.is_empty());
}

#[test]
fn library_outranks_the_tools() {
    let mut root = FsNode::empty_dir();
    put(&mut root, "system/bin/linker64", FsNode::File);
    put(&mut root, "system/lib64/su", FsNode::File);
    let infos: Vec<ModuleInfo> = Vec::new();
    let sections = deploy_plan(&infos, Some(&b("su")), Some(&b("/system/lib64")), &root, &env(true)).sections;
    let ops = &sections[0].ops;
    assert!(ops.contains(&bind("/t/magisk", "/t/w/system/lib64/su")));
    assert!(!ops.contains(&symlink("./magisk", "/t/w/system/lib64/su")));
}

#[test]
fn temporary_paths_follow_the_root() {
    assert_eq!(tmp_path(&b("/sbin"), &b("magisk")), b("/sbin/magisk"));
    assert_eq!(tmp_path(&b("rel"), &b("magisk")), b("/rel/magisk"));
    assert_eq!(tmp_path(&b("/sbin"), &b(".magisk/modules")), b("/sbin/.magisk/modules"));
}

#[test]
fn resolve_follows_a_path_through_the_snapshot() {
    let mut root = FsNode::empty_dir();
    put(&mut root, "system/bin/linker", FsNode::File);
    put(&mut root, "system/etc", link("/etc"));
    assert_eq!(root.resolve(&b("/system/bin/linker")), Some(&FsNode::File));
    assert_eq!(root.resolve(&b("system//bin/linker")), Some(&FsNode::File));
    assert_eq!(root.resolve(&b("/system/etc")), Some(&link("/etc")));
    assert!(matches!(root.resolve(&b("/system/bin/")), Some(FsNode::Dir { .. })));
    assert!(matches!(root.resolve(&b("/")), Some(FsNode::Dir { .. })));
    assert!(matches!(root.resolve(&b("")), Some(FsNode::Dir { .. })));
    assert_eq!(root.resolve(&b("/system/bin/linker64")), None);
    assert_eq!(root.resolve(&b("/system/bin/linker/x")), None);
    assert_eq!(root.resolve(&b("/system/etc/hosts")), None);
}

#[test]
fn library_is_wanted_unless_the_argument_is_zero() {
    assert!(!zygisk_wanted(&b("0")));
    assert!(zygisk_wanted(&b("")));
    assert!(zygisk_wanted(&b("00")));
    assert!(zygisk_wanted(&b("libzygisk.so")));
}

#[test]
fn attribute_failures_are_passed_over_and_others_are_not() {
    assert!(!attr("/a", "/b").is_fatal());
    assert!(bind("/a", "/b").is_fatal());
    assert!(make_dirs("/a").is_fatal());
    assert!(make_dir("/a").is_fatal());
    assert!(create("/a").is_fatal());
    assert!(symlink("/a", "/b").is_fatal());
}

#[test]
fn steps_run_through_the_parts_in_order() {
    let sections = vec![
        MountSection { dest: b("/product"), ops: vec![], fatal: false },
        MountSection { dest: b("/vendor"), ops: vec![create("/x"), attr("/a", "/b"), bind("/a", "/b")], fatal: false },
        MountSection { dest: b("/system_ext"), ops: vec![], fatal: false },
        MountSection { dest: b("/system"), ops: vec![attr("/a", "/b"), bind("/c", "/d")], fatal: true },
    ];
    assert_eq!(first_step(&sections), Next::Run { section: 1, op: 0 });
    assert_eq!(next_step(&sections, 1, 0, true), Next::Run { section: 1, op: 1 });
    assert_eq!(next_step(&sections, 1, 1, true), Next::Run { section: 1, op: 2 });
    assert_eq!(next_step(&sections, 1, 2, true), Next::Run { section: 3, op: 0 });
    assert_eq!(next_step(&sections, 3, 0, true), Next::Run { section: 3, op: 1 });
    assert_eq!(next_step(&sections, 3, 1, true), Next::Finished { ok: true });
}

#[test]
fn failure_gives_up_a_part_or_the_deployment() {
    let sections = vec![
        MountSection { dest: b("/vendor"), ops: vec![create("/x"), attr("/a", "/b"), bind("/a", "/b")], fatal: false },
        MountSection { dest: b("/system"), ops: vec![attr("/a", "/b"), bind("/c", "/d")], fatal: true },
    ];
    assert_eq!(next_step(&sections, 0, 0, false), Next::Run { section: 1, op: 0 });
    assert_eq!(next_step(&sections, 0, 1, false), Next::Run { section: 0, op: 2 });
    assert_eq!(next_step(&sections, 0, 2, false), Next::Run { section: 1, op: 0 });
    assert_eq!(next_step(&sections, 1, 0, false), Next::Run { section: 1, op: 1 });
    assert_eq!(next_step(&sections, 1, 1, false), Next::Finished { ok: false });
    let nothing: Vec<MountSection> = Vec::new();
    assert_eq!(first_step(&nothing), Next::Finished { ok: true });
    let last_may_fail = vec![MountSection { dest: b("/vendor"), ops: vec![create("/x")], fatal: false }];
    assert_eq!(next_step(&last_may_fail, 0, 0, false), Next::Finished { ok: true });
}

#[test]
fn snapshot_is_well_formed_when_every_directory_is_sorted() {
    let mut root = FsNode::empty_dir();
    put(&mut root, "system/bin/ls", FsNode::File);
    put(&mut root, "system/bin/cat", FsNode::File);
    put(&mut root, "system/app/a.apk", link("x"));
    assert!(root.is_wf());
    assert!(FsNode::File.is_wf());
    assert!(FsNode::empty_dir().is_wf());

    let mut unsorted: NameMap<FsNode> = NameMap::new();
    unsorted.names = vec![b("b"), b("a")];
    unsorted.values = vec![FsNode::File, FsNode::File];
    assert!(!unsorted.is_sorted());
    assert!(!FsNode::Dir { entries: unsorted }.is_wf());

    let mut twice: NameMap<FsNode> = NameMap::new();
    twice.names = vec![b("a"), b("a")];
    twice.values = vec![FsNode::File, FsNode::File];
    assert!(!twice.is_sorted());

    let mut uneven: NameMap<FsNode> = NameMap::new();
    uneven.names = vec![b("a")];
    assert!(!uneven.is_sorted());

    let mut deep: NameMap<FsNode> = NameMap::new();
    deep.names = vec![b("z"), b("y")];
    deep.values = vec![FsNode::File, FsNode::File];
    let mut outer = FsNode::empty_dir();
    assert!(outer.add(b("d"), FsNode::empty_dir()));
    if let FsNode::Dir { entries } = &mut outer {
        entries.values[0] = FsNode::Dir { entries: deep };
    }
    assert!(!outer.is_wf());
}
