//! The list of sources of a deployment: the module directories that take
//! part, and the virtual trees that are injected beside them.

use vstd::prelude::*;
use crate::custom::{inserted, CustomModule, CustomView};
use crate::fs::FsNode;
use crate::merge::{open_custom_dir, open_dir, taken, view_without, MergeState, ModuleIterator};
use crate::name::{join, join_spec, path_join, path_join_spec};
use crate::name_map::{lemma_find, NameMap};
use crate::source::{custom_child, dir_wf, sources_view, Source, SourceView};
use crate::words::{bytes, text};

verus! {

/// One module of the list: its name, and the snapshot of its directory
/// where it could be opened.
#[derive(Debug, PartialEq, Eq)]
pub struct ModuleInfo {
    pub name: Vec<u8>,
    pub dir: Option<FsNode>,
}

impl ModuleInfo {
    /// The snapshot is sorted at every level.
    pub open spec fn wf(&self) -> bool {
        self.dir is Some ==> self.dir->0.wf()
    }

    /// Whether the module takes part: its directory could be opened, holds
    /// no entry `skip_mount` and holds an entry `system`.
    pub open spec fn takes_part(&self) -> bool {
        &&& self.dir is Some
        &&& self.dir->0 is Dir
        &&& !self.dir->0.has_entry(text("skip_mount"))
        &&& self.dir->0.has_entry(text("system"))
    }

    /// The module's directory as a source of the merge, at its path below
    /// the directory `modules_dir` where the modules lie.
    pub open spec fn source(&self, modules_dir: Seq<u8>) -> SourceView {
        SourceView { path: path_join_spec(modules_dir, self.name@), dir: self.dir->0->entries }
    }
}

/// The sources of the modules that take part, in the order of the list.
pub open spec fn loaded(infos: Seq<ModuleInfo>, modules_dir: Seq<u8>) -> Seq<SourceView>
    decreases infos.len(),
{
    if infos.len() == 0 {
        Seq::empty()
    } else {
        let rest = loaded(infos.drop_last(), modules_dir);
        if infos.last().takes_part() {
            rest.push(infos.last().source(modules_dir))
        } else {
            rest
        }
    }
}

/// The path of the file `name` below the temporary root `tmp`.
pub open spec fn tmp_path_spec(tmp: Seq<u8>, name: Seq<u8>) -> Seq<u8> {
    path_join_spec(path_join_spec(Seq::empty(), tmp), name)
}

/// The path of the file `name` below the temporary root `tmp`.
pub fn tmp_path(tmp: &Vec<u8>, name: &Vec<u8>) -> (r: Vec<u8>)
    ensures
        r@ == tmp_path_spec(tmp@, name@),
{
    let empty: Vec<u8> = Vec::new();
    proof {
        assert(empty@ =~= Seq::<u8>::empty());
    }
    let root = path_join(&empty, tmp);
    path_join(&root, name)
}

/// The virtual tree that puts the tools into the directory `magisk_path`:
/// the two binaries, which stand for the files of their names below the
/// temporary root, and three links to them.
pub open spec fn magisk_bins(magisk_path: Seq<u8>, tmp: Seq<u8>) -> Map<Seq<u8>, CustomView> {
    let a = inserted(
        Map::empty(),
        join_spec(magisk_path, text("magisk")),
        tmp_path_spec(tmp, text("magisk")),
        false,
    );
    let b = inserted(
        a,
        join_spec(magisk_path, text("magiskpolicy")),
        tmp_path_spec(tmp, text("magiskpolicy")),
        false,
    );
    let c = inserted(b, join_spec(magisk_path, text("su")), text("./magisk"), true);
    let d = inserted(c, join_spec(magisk_path, text("resetprop")), text("./magisk"), true);
    inserted(d, join_spec(magisk_path, text("supolicy")), text("./magiskpolicy"), true)
}

/// The virtual tree that puts the library `zygisk_lib` into the library
/// directories. On a machine of 64 bits the library of 32 bits stands for
/// `magisk32` and is there where the loader of 32 bits is, and the library of
/// 64 bits stands for `magisk` and is there where the loader of 64 bits is.
/// On a machine of 32 bits the one library stands for `magisk`, where the
/// loader is.
pub open spec fn zygisk_bins(zygisk_lib: Seq<u8>, tmp: Seq<u8>, has32: bool, has64: bool, wide: bool) -> Map<
    Seq<u8>,
    CustomView,
> {
    let lib32 = path_join_spec(text("/system/lib"), zygisk_lib);
    let lib64 = path_join_spec(text("/system/lib64"), zygisk_lib);
    if wide {
        let a = if has32 {
            inserted(Map::empty(), lib32, tmp_path_spec(tmp, text("magisk32")), false)
        } else {
            Map::empty()
        };
        if has64 {
            inserted(a, lib64, tmp_path_spec(tmp, text("magisk")), false)
        } else {
            a
        }
    } else if has32 {
        inserted(Map::empty(), lib32, tmp_path_spec(tmp, text("magisk")), false)
    } else {
        Map::empty()
    }
}

/// The sources of a deployment. In both lists a later source outranks an
/// earlier one, and every module outranks every virtual tree.
pub struct ModuleList<'a> {
    pub modules: Vec<Source<'a>>,
    pub customs: Vec<CustomModule>,
}

impl<'a> ModuleList<'a> {
    /// Every source is sorted at every level.
    pub open spec fn wf(&self) -> bool {
        &&& forall|i: int| 0 <= i < self.modules.len() ==> dir_wf(#[trigger] *self.modules[i].dir)
        &&& forall|i: int| 0 <= i < self.customs.len() ==> (#[trigger] self.customs[i]).wf()
    }

    /// The merge of the module roots themselves, with nothing yielded.
    pub open spec fn view(&self) -> MergeState {
        MergeState { modules: sources_view(self.modules@), customs: self.customs@, seen: Set::empty() }
    }

    /// The list of the modules that take part, with no virtual tree yet.
    pub fn from_module_infos(module_infos: &'a Vec<ModuleInfo>, modules_dir: &Vec<u8>) -> (r: Self)
        requires
            forall|i: int| 0 <= i < module_infos.len() ==> (#[trigger] module_infos[i]).wf(),
        ensures
            r.wf(),
            sources_view(r.modules@) == loaded(module_infos@, modules_dir@),
            r.customs@.len() == 0,
    {
        let mut modules: Vec<Source<'a>> = Vec::new();
        let skip = bytes("skip_mount");
        let system = bytes("system");
        let mut i: usize = 0;
        proof {
            assert(sources_view(modules@) =~= loaded(module_infos@.take(0), modules_dir@));
        }
        while i < module_infos.len()
            invariant
                i <= module_infos.len(),
                skip@ == text("skip_mount"),
                system@ == text("system"),
                forall|k: int| 0 <= k < module_infos.len() ==> (#[trigger] module_infos[k]).wf(),
                forall|k: int| 0 <= k < modules.len() ==> dir_wf(#[trigger] *modules[k].dir),
                sources_view(modules@) == loaded(module_infos@.take(i as int), modules_dir@),
            decreases module_infos.len() - i,
        {
            let info: &'a ModuleInfo = &module_infos[i];
            let ghost before = sources_view(modules@);
            proof {
                assert(module_infos[i as int].wf());
                assert(module_infos@.take(i + 1).drop_last() =~= module_infos@.take(i as int));
                assert(module_infos@.take(i + 1).last() == module_infos[i as int]);
            }
            match &info.dir {
                Some(FsNode::Dir { entries }) => {
                    if !entries.contains_key(&skip) && entries.contains_key(&system) {
                        let path = path_join(modules_dir, &info.name);
                        let ghost old_modules = modules@;
                        modules.push(Source { path, dir: entries });
                        proof {
                            assert(sources_view(modules@) =~= before.push(info.source(modules_dir@)));
                            assert forall|k: int| 0 <= k < modules.len() implies dir_wf(
                                #[trigger] *modules[k].dir,
                            ) by {
                                if k < old_modules.len() {
                                    assert(modules[k] == old_modules[k]);
                                }
                            }
                        }
                    }
                },
                _ => {},
            }
            i += 1;
        }
        proof {
            assert(module_infos@.take(module_infos.len() as int) =~= module_infos@);
        }
        ModuleList { modules, customs: Vec::new() }
    }

    /// The merge of what the sources hold under `name`. The real sources
    /// stay as they are; the virtual trees give up what they hold under the
    /// name, so that nothing of it is merged twice.
    pub fn iter(&mut self, name: &Vec<u8>) -> (r: ModuleIterator<'a>)
        requires
            old(self).wf(),
        ensures
            r.wf(),
            r@ == old(self)@.below(name@),
            final(self).wf(),
            final(self).modules@ == old(self).modules@,
            final(self).customs.len() == old(self).customs.len(),
            forall|i: int|
                0 <= i < final(self).customs.len() ==> taken(
                    old(self).customs[i],
                    #[trigger] final(self).customs[i],
                    name@,
                ),
            forall|i: int|
                0 <= i < final(self).customs.len() ==> custom_child(#[trigger] final(self).customs[i], name@) is None,
            forall|i: int|
                0 <= i < final(self).customs.len() ==> (#[trigger] final(self).customs[i])@ == view_without(
                    old(self).customs[i]@,
                    name@,
                ),
    {
        proof {
            lemma_list_wf(*self);
            self@.lemma_below(name@);
        }
        let modules = open_dir(&self.modules, name);
        let customs = open_custom_dir(&mut self.customs, name);
        let collected: NameMap<()> = NameMap::new();
        let r = ModuleIterator { modules, customs, pos: 0, collected };
        proof {
            assert(r.collected.dom() =~= Set::<Seq<u8>>::empty());
            assert forall|n: Seq<u8>| !r.collected.has(n) by {
                lemma_find(r.collected.names@, n);
            }
        }
        r
    }

    /// Adds a virtual tree to the list, above those that are there.
    pub fn push_custom(&mut self, children: NameMap<CustomModule>)
        requires
            old(self).wf(),
            children.tree_wf(),
        ensures
            final(self).wf(),
            final(self).modules == old(self).modules,
            final(self).customs@ == old(self).customs@.push(CustomModule::Dir { children }),
    {
        self.customs.push(CustomModule::Dir { children });
        proof {
            assert forall|i: int| 0 <= i < self.customs.len() implies (#[trigger] self.customs[i]).wf() by {
                if i < old(self).customs.len() {
                    assert(self.customs[i] == old(self).customs[i]);
                }
            }
        }
    }

    /// Injects the virtual tree that redirects the library `zygisk_lib`.
    /// `root` is the real filesystem, in which the loaders are looked for;
    /// `wide` says that the machine has 64 bits.
    pub fn inject_zygisk_bins(&mut self, zygisk_lib: &Vec<u8>, tmp: &Vec<u8>, root: &FsNode, wide: bool)
        requires
            old(self).wf(),
            root.wf(),
        ensures
            final(self).wf(),
            final(self).modules == old(self).modules,
            final(self).customs@.len() == old(self).customs@.len() + 1,
            final(self).customs@.drop_last() == old(self).customs@,
            final(self).customs@.last()@ == (CustomView::Dir {
                children: zygisk_bins(
                    zygisk_lib@,
                    tmp@,
                    crate::fs::resolved(*root, text("/system/bin/linker")) is Some,
                    crate::fs::resolved(*root, text("/system/bin/linker64")) is Some,
                    wide,
                ),
            }),
    {
        let mut children: NameMap<CustomModule> = NameMap::new();
        proof {
            assert(children.tree_view() =~= Map::<Seq<u8>, CustomView>::empty());
        }
        let has32 = root.resolve(&bytes("/system/bin/linker")).is_some();
        let has64 = root.resolve(&bytes("/system/bin/linker64")).is_some();
        if wide {
            if has32 {
                let path = path_join(&bytes("/system/lib"), zygisk_lib);
                children.insert_entry(&path, &tmp_path(tmp, &bytes("magisk32")), false);
            }
            if has64 {
                let path = path_join(&bytes("/system/lib64"), zygisk_lib);
                children.insert_entry(&path, &tmp_path(tmp, &bytes("magisk")), false);
            }
        } else if has32 {
            let path = path_join(&bytes("/system/lib"), zygisk_lib);
            children.insert_entry(&path, &tmp_path(tmp, &bytes("magisk")), false);
        }
        self.push_custom(children);
        proof {
            assert(self.customs@.drop_last() =~= old(self).customs@);
        }
    }

    /// Injects the virtual tree that puts the tools into the directory
    /// `magisk_path`.
    pub fn inject_magisk_bins(&mut self, magisk_path: &Vec<u8>, tmp: &Vec<u8>)
        requires
            old(self).wf(),
        ensures
            final(self).wf(),
            final(self).modules == old(self).modules,
            final(self).customs@.len() == old(self).customs@.len() + 1,
            final(self).customs@.drop_last() == old(self).customs@,
            final(self).customs@.last()@ == (CustomView::Dir { children: magisk_bins(magisk_path@, tmp@) }),
    {
        let mut children: NameMap<CustomModule> = NameMap::new();
        proof {
            assert(children.tree_view() =~= Map::<Seq<u8>, CustomView>::empty());
        }
        let magisk = bytes("magisk");
        let policy = bytes("magiskpolicy");
        children.insert_entry(&join(magisk_path, &magisk), &tmp_path(tmp, &magisk), false);
        children.insert_entry(&join(magisk_path, &policy), &tmp_path(tmp, &policy), false);
        children.insert_entry(&join(magisk_path, &bytes("su")), &bytes("./magisk"), true);
        children.insert_entry(&join(magisk_path, &bytes("resetprop")), &bytes("./magisk"), true);
        children.insert_entry(&join(magisk_path, &bytes("supolicy")), &bytes("./magiskpolicy"), true);
        self.push_custom(children);
        proof {
            assert(self.customs@.drop_last() =~= old(self).customs@);
        }
    }
}

/// The merge of the roots of a well-formed list is well formed.
pub proof fn lemma_list_wf(list: ModuleList)
    requires
        list.wf(),
    ensures
        list@.wf(),
{
    assert forall|i: int| 0 <= i < list@.modules.len() implies dir_wf(#[trigger] list@.modules[i].dir) by {
        assert(list@.modules[i] == list.modules@[i]@);
        assert(dir_wf(*list.modules[i].dir));
    }
}

} // verus!
