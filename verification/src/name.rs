//! Names and paths as byte strings, and their lexicographic order.

use vstd::prelude::*;

verus! {

/// The byte that separates the components of a path.
pub const SLASH: u8 = 47;

/// How one name stands to another in byte-wise lexicographic order.
#[derive(Clone, Copy, Debug, PartialEq, Eq, Structural)]
pub enum Order {
    Less,
    Equal,
    Greater,
}

/// `a` comes strictly before `b`: at the first place where they differ `a`
/// has the smaller byte, or `a` ends there and `b` goes on.
pub open spec fn name_lt(a: Seq<u8>, b: Seq<u8>) -> bool {
    exists|k: int| differs_at(a, b, k)
}

/// `a` and `b` agree on their first `k` bytes, and at place `k` the name `a`
/// ends or has the smaller byte.
pub open spec fn differs_at(a: Seq<u8>, b: Seq<u8>, k: int) -> bool {
    &&& 0 <= k <= a.len()
    &&& k < b.len()
    &&& forall|j: int| 0 <= j < k ==> a[j] == b[j]
    &&& (k == a.len() || a[k] < b[k])
}

/// No name comes before itself.
pub proof fn lemma_lt_irreflexive(a: Seq<u8>)
    ensures
        !name_lt(a, a),
{
    if name_lt(a, a) {
        let k = choose|k: int| differs_at(a, a, k);
        assert(differs_at(a, a, k));
    }
}

/// The order is transitive.
pub proof fn lemma_lt_transitive(a: Seq<u8>, b: Seq<u8>, c: Seq<u8>)
    requires
        name_lt(a, b),
        name_lt(b, c),
    ensures
        name_lt(a, c),
{
    let k1 = choose|k: int| differs_at(a, b, k);
    let k2 = choose|k: int| differs_at(b, c, k);
    let k = if k1 <= k2 { k1 } else { k2 };
    assert(differs_at(a, c, k));
}

/// A name never stands both before and after another.
pub proof fn lemma_lt_asymmetric(a: Seq<u8>, b: Seq<u8>)
    requires
        name_lt(a, b),
    ensures
        !name_lt(b, a),
{
    if name_lt(b, a) {
        lemma_lt_transitive(a, b, a);
        lemma_lt_irreflexive(a);
    }
}

/// Compares two names byte by byte.
pub fn name_order(a: &Vec<u8>, b: &Vec<u8>) -> (r: Order)
    ensures
        r == Order::Less <==> name_lt(a@, b@),
        r == Order::Equal <==> a@ == b@,
        r == Order::Greater <==> name_lt(b@, a@),
{
    let mut i: usize = 0;
    while i < a.len() && i < b.len()
        invariant
            i <= a.len(),
            i <= b.len(),
            forall|j: int| 0 <= j < i ==> a@[j] == b@[j],
        decreases a.len() - i,
    {
        if a[i] < b[i] {
            proof {
                assert(differs_at(a@, b@, i as int));
                lemma_lt_asymmetric(a@, b@);
                lemma_lt_irreflexive(a@);
            }
            return Order::Less;
        }
        if b[i] < a[i] {
            proof {
                assert(differs_at(b@, a@, i as int));
                lemma_lt_asymmetric(b@, a@);
                lemma_lt_irreflexive(a@);
            }
            return Order::Greater;
        }
        i += 1;
    }
    if i < b.len() {
        proof {
            assert(differs_at(a@, b@, i as int));
            lemma_lt_asymmetric(a@, b@);
            lemma_lt_irreflexive(a@);
        }
        Order::Less
    } else if i < a.len() {
        proof {
            assert(differs_at(b@, a@, i as int));
            lemma_lt_asymmetric(b@, a@);
            lemma_lt_irreflexive(a@);
        }
        Order::Greater
    } else {
        proof {
            assert(a@ =~= b@);
            lemma_lt_irreflexive(a@);
        }
        Order::Equal
    }
}

/// Whether two names hold the same bytes.
pub fn name_eq(a: &Vec<u8>, b: &Vec<u8>) -> (r: bool)
    ensures
        r == (a@ == b@),
{
    if a.len() != b.len() {
        return false;
    }
    let mut i: usize = 0;
    while i < a.len()
        invariant
            i <= a.len(),
            a.len() == b.len(),
            forall|j: int| 0 <= j < i ==> a@[j] == b@[j],
        decreases a.len() - i,
    {
        if a[i] != b[i] {
            return false;
        }
        i += 1;
    }
    proof {
        assert(a@ =~= b@);
    }
    true
}

/// A copy of a name.
pub fn name_copy(a: &Vec<u8>) -> (r: Vec<u8>)
    ensures
        r@ == a@,
{
    let mut r: Vec<u8> = Vec::new();
    let mut i: usize = 0;
    while i < a.len()
        invariant
            i <= a.len(),
            r@ == a@.take(i as int),
        decreases a.len() - i,
    {
        r.push(a[i]);
        proof {
            assert(r@ =~= a@.take(i + 1));
        }
        i += 1;
    }
    proof {
        assert(a@.take(a.len() as int) =~= a@);
    }
    r
}

/// The path of the entry `name` in the directory `dir`: the two joined by
/// one slash.
pub open spec fn join_spec(dir: Seq<u8>, name: Seq<u8>) -> Seq<u8> {
    dir.push(SLASH) + name
}

/// Joins a directory's path and an entry's name with a slash.
pub fn join(dir: &Vec<u8>, name: &Vec<u8>) -> (r: Vec<u8>)
    ensures
        r@ == join_spec(dir@, name@),
{
    let mut r = name_copy(dir);
    r.push(SLASH);
    append(&mut r, name);
    r
}

/// Appends the bytes of `tail` to `buf`.
pub fn append(buf: &mut Vec<u8>, tail: &Vec<u8>)
    ensures
        final(buf)@ == old(buf)@ + tail@,
{
    let mut i: usize = 0;
    while i < tail.len()
        invariant
            i <= tail.len(),
            buf@ == old(buf)@ + tail@.take(i as int),
        decreases tail.len() - i,
    {
        buf.push(tail[i]);
        proof {
            assert(buf@ =~= old(buf)@ + tail@.take(i + 1));
        }
        i += 1;
    }
    proof {
        assert(tail@.take(tail.len() as int) =~= tail@);
    }
}

/// A path made longer by `path`: an absolute `path`, one that starts with a
/// slash, stands for itself; any other is put behind `dir` and a slash.
pub open spec fn path_join_spec(dir: Seq<u8>, path: Seq<u8>) -> Seq<u8> {
    if path.len() > 0 && path[0] == SLASH {
        path
    } else {
        join_spec(dir, path)
    }
}

/// Makes the path `dir` longer by `path`, or takes `path` alone where it is
/// absolute.
pub fn path_join(dir: &Vec<u8>, path: &Vec<u8>) -> (r: Vec<u8>)
    ensures
        r@ == path_join_spec(dir@, path@),
{
    if path.len() > 0 && path[0] == SLASH {
        name_copy(path)
    } else {
        join(dir, path)
    }
}

/// The place of the first slash in `path`, or the length of `path` where
/// it holds none.
pub open spec fn first_slash(path: Seq<u8>) -> int
    decreases path.len(),
{
    if path.len() == 0 || path[0] == SLASH {
        0
    } else {
        1 + first_slash(path.skip(1))
    }
}

/// `first_slash` lies within the path, no slash stands before it, and one
/// stands at it unless the path has ended.
pub proof fn lemma_first_slash(path: Seq<u8>)
    ensures
        0 <= first_slash(path) <= path.len(),
        forall|j: int| 0 <= j < first_slash(path) ==> path[j] != SLASH,
        first_slash(path) < path.len() ==> path[first_slash(path)] == SLASH,
    decreases path.len(),
{
    if path.len() != 0 && path[0] != SLASH {
        let rest = path.skip(1);
        lemma_first_slash(rest);
        assert forall|j: int| 0 <= j < first_slash(path) implies path[j] != SLASH by {
            if j > 0 {
                assert(rest[j - 1] == path[j]);
            }
        }
    }
}

/// The place of the first slash of `path` at or after `start`, or the
/// length of `path`.
pub fn find_slash(path: &Vec<u8>, start: usize) -> (k: usize)
    requires
        start <= path.len(),
    ensures
        start <= k <= path.len(),
        k - start == first_slash(path@.skip(start as int)),
{
    let mut k: usize = start;
    while k < path.len() && path[k] != SLASH
        invariant
            start <= k <= path.len(),
            forall|j: int| start <= j < k ==> path@[j] != SLASH,
        decreases path.len() - k,
    {
        k += 1;
    }
    proof {
        let tail = path@.skip(start as int);
        lemma_first_slash(tail);
        let f = first_slash(tail);
        if f < k - start {
            assert(tail[f] == path@[start + f]);
        }
        if k - start < f {
            assert(tail[k - start] == path@[k as int]);
        }
    }
    k
}

/// The bytes of `path` from `from` up to `to`, copied out.
pub fn copy_range(path: &Vec<u8>, from: usize, to: usize) -> (r: Vec<u8>)
    requires
        from <= to <= path.len(),
    ensures
        r@ == path@.subrange(from as int, to as int),
{
    let mut r: Vec<u8> = Vec::new();
    let mut i: usize = from;
    while i < to
        invariant
            from <= i <= to <= path.len(),
            r@ == path@.subrange(from as int, i as int),
        decreases to - i,
    {
        r.push(path[i]);
        proof {
            assert(r@ =~= path@.subrange(from as int, i + 1));
        }
        i += 1;
    }
    r
}

} // verus!
