use magic_mount::deploy::{deploy_plan, Environment, MountSection};
use magic_mount::fs::FsNode;
use magic_mount::module_list::ModuleInfo;
use magic_mount::ops::{MountOp, Workspace};

fn b(s: &str) -> Vec<u8> {
    s.as_bytes().to_vec()
}

fn put_parts(node: &mut FsNode, parts: &[&str], leaf: FsNode) {
    if parts.len() == 1 {
        assert!(node.add(b(parts[0]), leaf));
        return;
    }
    match node {
        FsNode::Dir { entries } => {
            let name = b(parts[0]);
            if !entries.contains_key(&name) {
                entries.insert_new(b(parts[0]), FsNode::empty_dir());
            }
            let (i, found) = entries.search(&name);
            assert!(found);
            put_parts(&mut entries.values[i], &parts[1..], leaf);
        }
        _ => panic!("not a directory"),
    }
}

fn put(node: &mut FsNode, path: &str, leaf: FsNode) {
    let parts: Vec<&str> = path.split('/').filter(|p| !p.is_empty()).collect();
    put_parts(node, &parts, leaf);
}

fn link(target: &str) -> FsNode {
    FsNode::Symlink { target: b(target) }
}

fn module(name: &str, dir: FsNode) -> ModuleInfo {
    ModuleInfo { name: b(name), dir: Some(dir) }
}

fn env() -> Environment {
    Environment {
        ws: Workspace { tmp: b("/dev/tmp"), worker: b(".magisk/worker") },
        modules: b(".magisk/modules"),
        wide: true,
    }
}

fn make_dirs(path: &str) -> MountOp {
    MountOp::MakeDirs { path: b(path) }
}

fn make_dir(path: &str) -> MountOp {
    MountOp::MakeDir { path: b(path) }
}

fn create(path: &str) -> MountOp {
    MountOp::CreateFile { path: b(path) }
}

fn attr(from: &str, to: &str) -> MountOp {
    MountOp::CloneAttr { from: b(from), to: b(to) }
}

fn bind(source: &str, target: &str) -> MountOp {
    MountOp::BindMount { source: b(source), target: b(target) }
}

fn symlink(target: &str, link: &str) -> MountOp {
    MountOp::Symlink { target: b(target), link: b(link) }
}

fn mentions(op: &MountOp, path: &str) -> bool {
    let hit = |v: &Vec<u8>| String::from_utf8_lossy(v).contains(path);
    match op {
        MountOp::MakeDirs { path } => hit(path),
        MountOp::MakeDir { path } => hit(path),
        MountOp::CreateFile { path } => hit(path),
        MountOp::CloneAttr { from, to } => hit(from) || hit(to),
        MountOp::BindMount { source, target } => hit(source) || hit(target),
        MountOp::Symlink { target, link } => hit(target) || hit(link),
    }
}

const W: &str = "/dev/tmp/.magisk/worker";
const M: &str = "/dev/tmp/.magisk/modules";

fn w(path: &str) -> String {
    format!("{}{}", W, path)
}

fn m(path: &str) -> String {
    format!("{}{}", M, path)
}

fn only_system(sections: &Vec<MountSection>) -> &Vec<MountOp> {
    assert_eq!(sections.len(), 1);
    assert_eq!(sections[0].dest, b("/system"));
    assert!(sections[0].fatal);
    &sections[0].ops
}

#[test]
fn one_file_over_a_real_link_stages_the_chain_up_to_system() {
    let mut a = FsNode::empty_dir();
    put(&mut a, "system/bin/foo", FsNode::File);
    let mut root = FsNode::empty_dir();
    put(&mut root, "system/bin/foo", link("toybox"));
    put(&mut root, "system/bin/ls", FsNode::File);
    put(&mut root, "system/bin/sh", link("mksh"));
    put(&mut root, "system/lib/libc.so", FsNode::File);
    let list = vec![module("A", a)];
    let sections = deploy_plan(&list, None, None, &root, &env()).sections;
    let ops = only_system(&sections);
    let expected = vec![
        make_dirs(&w("/system")),
        attr("/system", &w("/system")),
        make_dirs(&w("/system/bin")),
        attr("/system/bin", &w("/system/bin")),
        create(&w("/system/bin/foo")),
        bind(&m("/A/system/bin/foo"), &w("/system/bin/foo")),
        create(&w("/system/bin/ls")),
        bind("/system/bin/ls", &w("/system/bin/ls")),
        symlink("mksh", &w("/system/bin/sh")),
        attr("/system/bin/sh", &w("/system/bin/sh")),
        make_dir(&w("/system/lib")),
        attr("/system/lib", &w("/system/lib")),
        create(&w("/system/lib/libc.so")),
        bind("/system/lib/libc.so", &w("/system/lib/libc.so")),
        bind(&w("/system"), "/system"),
    ];
    assert_eq!(ops, &expected);
    assert!(!ops.iter().any(|op| matches!(op, MountOp::BindMount { source, .. } if source == &b("/system/bin/foo"))));
}

#[test]
fn one_file_over_a_real_file_is_bound_in_place() {
    let mut a = FsNode::empty_dir();
    put(&mut a, "system/bin/foo", FsNode::File);
    let mut root = FsNode::empty_dir();
    put(&mut root, "system/bin/foo", FsNode::File);
    put(&mut root, "system/bin/ls", FsNode::File);
    let list = vec![module("A", a)];
    let sections = deploy_plan(&list, None, None, &root, &env()).sections;
    let ops = only_system(&sections);
    let expected = vec![
        attr(&m("/A/system/bin/foo"), "/system/bin/foo"),
        bind(&m("/A/system/bin/foo"), "/system/bin/foo"),
    ];
    assert_eq!(ops, &expected);
}

#[test]
fn replace_marker_keeps_only_what_the_module_provides() {
    let mut module_b = FsNode::empty_dir();
    put(&mut module_b, "system/app/.replace", FsNode::File);
    put(&mut module_b, "system/app/X/x.apk", FsNode::File);
    let mut root = FsNode::empty_dir();
    put(&mut root, "system/app/A/a.apk", FsNode::File);
    put(&mut root, "system/app/B/b.apk", FsNode::File);
    put(&mut root, "system/app/X/old.apk", FsNode::File);
    put(&mut root, "system/build.prop", FsNode::File);
    let list = vec![module("B", module_b)];
    let plan = deploy_plan(&list, None, None, &root, &env());
    assert!(plan.conflicts.is_empty());
    let sections = plan.sections;
    let ops = only_system(&sections);
    let expected = vec![
        make_dirs(&w("/system")),
        attr("/system", &w("/system")),
        make_dirs(&w("/system/app")),
        attr("/system/app", &w("/system/app")),
        make_dirs(&w("/system/app/X")),
        attr("/system/app/X", &w("/system/app/X")),
        create(&w("/system/app/X/x.apk")),
        bind(&m("/B/system/app/X/x.apk"), &w("/system/app/X/x.apk")),
        create(&w("/system/app/X/old.apk")),
        bind("/system/app/X/old.apk", &w("/system/app/X/old.apk")),
        create(&w("/system/build.prop")),
        bind("/system/build.prop", &w("/system/build.prop")),
        bind(&w("/system"), "/system"),
    ];
    assert_eq!(ops, &expected);
    assert!(!ops.iter().any(|op| mentions(op, "/system/app/A")));
    assert!(!ops.iter().any(|op| mentions(op, "/system/app/B")));
    assert!(!ops.iter().any(|op| mentions(op, ".replace")));
}

#[test]
fn of_two_modules_the_later_one_wins_a_file() {
    let mut a = FsNode::empty_dir();
    put(&mut a, "system/lib/libfoo.so", FsNode::File);
    let mut second = FsNode::empty_dir();
    put(&mut second, "system/lib/libfoo.so", FsNode::File);
    let mut root = FsNode::empty_dir();
    put(&mut root, "system/lib/libfoo.so", FsNode::File);
    let list = vec![module("A", a), module("B", second)];
    let plan = deploy_plan(&list, None, None, &root, &env());
    assert_eq!(plan.conflicts, vec![b(&m("/A/system/lib/libfoo.so"))]);
    let sections = plan.sections;
    let ops = only_system(&sections);
    let expected = vec![
        attr(&m("/B/system/lib/libfoo.so"), "/system/lib/libfoo.so"),
        bind(&m("/B/system/lib/libfoo.so"), "/system/lib/libfoo.so"),
    ];
    assert_eq!(ops, &expected);
    assert!(!ops.iter().any(|op| mentions(op, "/A/")));
}
