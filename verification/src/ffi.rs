//! The entry point for callers that hold their strings as C++ strings.

use vstd::prelude::*;
use crate::deploy::{deploy_plan, is_deployment, sections_view, Deployment, Environment};
use crate::merge::paths_view;
use crate::fs::FsNode;
use crate::module_list::ModuleInfo;
use crate::name::name_eq;
use crate::words::{bytes, text};

verus! {

#[verifier::external_type_specification]
#[verifier::external_body]
pub struct ExCxxString(cxx::CxxString);

/// The bytes that a C++ string holds, in order.
pub uninterp spec fn cxx_bytes(s: &cxx::CxxString) -> Seq<u8>;

/// The UTF-8 bytes of the text that a lossy decoding of `bytes` gives.
pub uninterp spec fn utf8_lossy(bytes: Seq<u8>) -> Seq<u8>;

/// `CxxString::is_empty`: true exactly when the string holds no byte.
#[verifier::external_body]
fn cxx_is_empty(s: &cxx::CxxString) -> (r: bool)
    ensures
        r == (cxx_bytes(s).len() == 0),
{
    s.is_empty()
}

/// `CxxString::as_bytes`: the bytes of the string, copied out.
#[verifier::external_body]
fn cxx_as_bytes(s: &cxx::CxxString) -> (r: Vec<u8>)
    ensures
        r@ == cxx_bytes(s),
{
    s.as_bytes().to_vec()
}

/// `CxxString::to_string_lossy`: the string decoded as UTF-8, with every
/// invalid sequence replaced; the text comes back as its bytes.
#[verifier::external_body]
fn cxx_to_string_lossy(s: &cxx::CxxString) -> (r: Vec<u8>)
    ensures
        r@ == utf8_lossy(cxx_bytes(s)),
{
    s.to_string_lossy().as_bytes().to_vec()
}

/// Whether the raw bytes of the library argument ask for the library: they
/// do unless they are the text `0`.
pub fn zygisk_wanted(raw: &Vec<u8>) -> (r: bool)
    ensures
        r == (raw@ != text("0")),
{
    !name_eq(raw, &bytes("0"))
}

/// The library that the raw bytes of the argument ask for.
pub open spec fn zygisk_request(raw: Seq<u8>) -> Option<Seq<u8>> {
    if raw != text("0") {
        Some(utf8_lossy(raw))
    } else {
        None
    }
}

/// The directory for the tools that the raw bytes of the argument ask for.
pub open spec fn magisk_request(raw: Seq<u8>) -> Option<Seq<u8>> {
    if raw.len() != 0 {
        Some(utf8_lossy(raw))
    } else {
        None
    }
}

/// Plans the deployment of the modules over the real filesystem `root`.
/// The tools are asked for by a `magisk_path` that is not empty, the
/// library by a `zygisk_lib` other than `0`.
pub fn deploy_modules(
    module_list: &Vec<ModuleInfo>,
    zygisk_lib: &cxx::CxxString,
    magisk_path: &cxx::CxxString,
    root: &FsNode,
    env: &Environment,
) -> (plan: Deployment)
    requires
        forall|i: int| 0 <= i < module_list.len() ==> (#[trigger] module_list[i]).wf(),
        root.wf(),
    ensures
        is_deployment(
            sections_view(plan.sections@),
            paths_view(plan.conflicts@),
            module_list@,
            zygisk_request(cxx_bytes(zygisk_lib)),
            magisk_request(cxx_bytes(magisk_path)),
            *root,
            *env,
        ),
{
    let tools = if cxx_is_empty(magisk_path) {
        None
    } else {
        Some(cxx_to_string_lossy(magisk_path))
    };
    let raw = cxx_as_bytes(zygisk_lib);
    let library = if zygisk_wanted(&raw) {
        Some(cxx_to_string_lossy(zygisk_lib))
    } else {
        None
    };
    let tools_ref = match &tools {
        Some(t) => Some(t),
        None => None,
    };
    let library_ref = match &library {
        Some(l) => Some(l),
        None => None,
    };
    deploy_plan(module_list, library_ref, tools_ref, root, env)
}

} // verus!
