//! Carrying out a deployment: which operation comes next, and when the
//! deployment has ended, given how each operation went.

use vstd::prelude::*;
use crate::deploy::{sections_view, MountSection, SectionView};

verus! {

/// What the one who carries out a deployment does next.
#[derive(Clone, Copy, Debug, PartialEq, Eq)]
pub enum Next {
    /// Carry out the operation at place `op` of the part at place
    /// `section`.
    Run { section: usize, op: usize },
    /// Nothing is left to do; `ok` says whether the deployment succeeded.
    Finished { ok: bool },
}

/// The first operation at or after place `op` of part `section`: the place
/// itself where the part has an operation there, else the first operation
/// of the next part that has one.
pub open spec fn seek(sections: Seq<SectionView>, section: int, op: int) -> Option<(int, int)>
    decreases sections.len() - section,
{
    if section < 0 || section >= sections.len() {
        None
    } else if 0 <= op < sections[section].ops.len() {
        Some((section, op))
    } else {
        seek(sections, section + 1, 0)
    }
}

/// What comes next when the search for an operation gave `found`.
pub open spec fn next_of(found: Option<(int, int)>) -> Next {
    match found {
        Some((s, o)) => Next::Run { section: s as usize, op: o as usize },
        None => Next::Finished { ok: true },
    }
}

/// What follows the operation at `(section, op)`, which went well if `ok`.
/// A failure that is not fatal for the operation is passed over. Another
/// failure ends the deployment as failed where the part is fatal, and
/// gives up the rest of the part where it is not.
pub open spec fn after(sections: Seq<SectionView>, section: int, op: int, ok: bool) -> Next {
    if ok || sections[section].ops[op] is CloneAttr {
        next_of(seek(sections, section, op + 1))
    } else if sections[section].fatal {
        Next::Finished { ok: false }
    } else {
        next_of(seek(sections, section + 1, 0))
    }
}

/// The first operation at or after `(section, op)`.
pub fn find_op(sections: &Vec<MountSection>, section: usize, op: usize) -> (r: Next)
    requires
        section <= sections.len(),
    ensures
        r == next_of(seek(sections_view(sections@), section as int, op as int)),
        r matches Next::Run { section: s, op: o } ==> s < sections.len() && o < sections[s as int].ops.len(),
{
    let mut s = section;
    let mut o = op;
    while s < sections.len()
        invariant
            s <= sections.len(),
            seek(sections_view(sections@), s as int, o as int) == seek(
                sections_view(sections@),
                section as int,
                op as int,
            ),
        decreases sections.len() - s,
    {
        proof {
            assert(sections_view(sections@)[s as int] == sections@[s as int]@);
        }
        if o < sections[s].ops.len() {
            return Next::Run { section: s, op: o };
        }
        s += 1;
        o = 0;
    }
    Next::Finished { ok: true }
}

/// What to do first.
pub fn first_step(sections: &Vec<MountSection>) -> (r: Next)
    ensures
        r == next_of(seek(sections_view(sections@), 0, 0)),
        r matches Next::Run { section: s, op: o } ==> s < sections.len() && o < sections[s as int].ops.len(),
{
    find_op(sections, 0, 0)
}

/// What to do after the operation at `(section, op)`, which went well if
/// `ok`.
pub fn next_step(sections: &Vec<MountSection>, section: usize, op: usize, ok: bool) -> (r: Next)
    requires
        section < sections.len(),
        op < sections[section as int].ops.len(),
    ensures
        r == after(sections_view(sections@), section as int, op as int, ok),
        r matches Next::Run { section: s, op: o } ==> s < sections.len() && o < sections[s as int].ops.len(),
{
    proof {
        assert(sections_view(sections@)[section as int] == sections@[section as int]@);
    }
    if ok || !sections[section].ops[op].is_fatal() {
        find_op(sections, section, op + 1)
    } else if sections[section].fatal {
        Next::Finished { ok: false }
    } else {
        find_op(sections, section + 1, 0)
    }
}

} // verus!
