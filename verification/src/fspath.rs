//! Filesystem paths as plain values.
//!
//! A path is held as its list of components, each component the bytes of one
//! path element. An absolute path carries the root as its first component,
//! the single byte `/`. The orderings defined here are the lexicographic
//! orderings that sibling sorting relies on: bytewise within a component,
//! componentwise across a path.

use vstd::prelude::*;

verus! {

/// One filesystem path, as the list of its components' bytes.
pub struct FsPath {
    pub parts: Vec<Vec<u8>>,
}

impl View for FsPath {
    type V = Seq<Seq<u8>>;

    open spec fn view(&self) -> Seq<Seq<u8>> {
        Seq::new(self.parts@.len(), |i: int| self.parts@[i]@)
    }
}

/// Strict bytewise lexicographic order on components.
pub open spec fn bytes_lt(a: Seq<u8>, b: Seq<u8>) -> bool
    decreases a.len(),
{
    if b.len() == 0 {
        false
    } else if a.len() == 0 {
        true
    } else if a[0] < b[0] {
        true
    } else if a[0] > b[0] {
        false
    } else {
        bytes_lt(a.drop_first(), b.drop_first())
    }
}

/// Strict componentwise lexicographic order on paths.
pub open spec fn path_lt(a: Seq<Seq<u8>>, b: Seq<Seq<u8>>) -> bool
    decreases a.len(),
{
    if b.len() == 0 {
        false
    } else if a.len() == 0 {
        true
    } else if a[0] != b[0] {
        bytes_lt(a[0], b[0])
    } else {
        path_lt(a.drop_first(), b.drop_first())
    }
}

pub open spec fn path_le(a: Seq<Seq<u8>>, b: Seq<Seq<u8>>) -> bool {
    path_lt(a, b) || a == b
}

/// `c` names a direct child of the directory at `p`.
pub open spec fn is_child_path(c: Seq<Seq<u8>>, p: Seq<Seq<u8>>) -> bool {
    c.len() == p.len() + 1 && p.is_prefix_of(c)
}

/// The root component, the single byte `/`.
pub open spec fn root_component() -> Seq<u8> {
    seq![47u8]
}

/// The bytes of `dev`.
pub open spec fn dev_name() -> Seq<u8> {
    seq![100u8, 101u8, 118u8]
}

/// The bytes of `proc`.
pub open spec fn proc_name() -> Seq<u8> {
    seq![112u8, 114u8, 111u8, 99u8]
}

/// The bytes of `mnt`.
pub open spec fn mnt_name() -> Seq<u8> {
    seq![109u8, 110u8, 116u8]
}

/// Paths under the kernel device, process and mount pseudo-filesystems are
/// never traversed: scanning them would be unbounded or meaningless.
pub open spec fn is_special_path(p: Seq<Seq<u8>>) -> bool {
    p.len() >= 2 && p[0] == root_component() && (p[1] == dev_name() || p[1] == proc_name()
        || p[1] == mnt_name())
}

proof fn lemma_bytes_lt_total(a: Seq<u8>, b: Seq<u8>)
    ensures
        bytes_lt(a, b) || bytes_lt(b, a) || a == b,
    decreases a.len(),
{
    if a.len() > 0 && b.len() > 0 && a[0] == b[0] {
        lemma_bytes_lt_total(a.drop_first(), b.drop_first());
        if a.drop_first() == b.drop_first() {
            assert forall|i: int| 0 <= i < a.len() implies a[i] == b[i] by {
                if i > 0 {
                    assert(a.drop_first()[i - 1] == b.drop_first()[i - 1]);
                }
            }
            assert(a =~= b);
        }
    }
}

proof fn lemma_bytes_lt_trans(a: Seq<u8>, b: Seq<u8>, c: Seq<u8>)
    requires
        bytes_lt(a, b),
        bytes_lt(b, c),
    ensures
        bytes_lt(a, c),
    decreases a.len(),
{
    if a.len() > 0 && b.len() > 0 && c.len() > 0 && a[0] == b[0] && b[0] == c[0] {
        lemma_bytes_lt_trans(a.drop_first(), b.drop_first(), c.drop_first());
    }
}

proof fn lemma_bytes_lt_irrefl(a: Seq<u8>)
    ensures
        !bytes_lt(a, a),
    decreases a.len(),
{
    if a.len() > 0 {
        lemma_bytes_lt_irrefl(a.drop_first());
    }
}

pub proof fn lemma_path_lt_total(a: Seq<Seq<u8>>, b: Seq<Seq<u8>>)
    ensures
        path_lt(a, b) || path_lt(b, a) || a == b,
    decreases a.len(),
{
    if a.len() == 0 || b.len() == 0 {
        if a.len() == 0 && b.len() == 0 {
            assert(a =~= b);
        }
    } else if a[0] != b[0] {
        lemma_bytes_lt_total(a[0], b[0]);
    } else {
        lemma_path_lt_total(a.drop_first(), b.drop_first());
        if a.drop_first() == b.drop_first() {
            assert(a.drop_first().len() == b.drop_first().len());
            assert(a.len() == b.len());
            assert forall|i: int| 0 <= i < a.len() implies a[i] == b[i] by {
                if i > 0 {
                    assert(a.drop_first()[i - 1] == b.drop_first()[i - 1]);
                    assert(a.drop_first()[i - 1] == a[i]);
                    assert(b.drop_first()[i - 1] == b[i]);
                }
            }
            assert(a =~= b);
        }
    }
}

pub proof fn lemma_path_lt_trans(a: Seq<Seq<u8>>, b: Seq<Seq<u8>>, c: Seq<Seq<u8>>)
    requires
        path_lt(a, b),
        path_lt(b, c),
    ensures
        path_lt(a, c),
    decreases a.len(),
{
    if a.len() > 0 && b.len() > 0 && c.len() > 0 {
        if a[0] == b[0] && b[0] == c[0] {
            lemma_path_lt_trans(a.drop_first(), b.drop_first(), c.drop_first());
        } else if a[0] != b[0] && b[0] != c[0] {
            lemma_bytes_lt_trans(a[0], b[0], c[0]);
            lemma_bytes_lt_irrefl(a[0]);
            if a[0] == c[0] {
                lemma_bytes_lt_trans(a[0], b[0], a[0]);
            }
        }
    }
}

pub proof fn lemma_path_le_total(a: Seq<Seq<u8>>, b: Seq<Seq<u8>>)
    ensures
        path_le(a, b) || path_le(b, a),
{
    lemma_path_lt_total(a, b);
}

pub proof fn lemma_path_le_trans(a: Seq<Seq<u8>>, b: Seq<Seq<u8>>, c: Seq<Seq<u8>>)
    requires
        path_le(a, b),
        path_le(b, c),
    ensures
        path_le(a, c),
{
    if path_lt(a, b) && path_lt(b, c) {
        lemma_path_lt_trans(a, b, c);
    }
}

fn bytes_eq(a: &Vec<u8>, b: &Vec<u8>) -> (r: bool)
    ensures
        r == (a@ == b@),
{
    if a.len() != b.len() {
        return false;
    }
    let n = a.len();
    let mut i: usize = 0;
    while i < n
        invariant
            n == a.len() == b.len(),
            0 <= i <= n,
            forall|j: int| 0 <= j < i ==> a@[j] == b@[j],
        decreases n - i,
    {
        if a[i] != b[i] {
            return false;
        }
        i += 1;
    }
    proof {
        assert(a@ =~= b@);
    }
    true
}

fn bytes_less(a: &Vec<u8>, b: &Vec<u8>) -> (r: bool)
    ensures
        r == bytes_lt(a@, b@),
{
    let mut i: usize = 0;
    proof {
        assert(a@.skip(0) =~= a@);
        assert(b@.skip(0) =~= b@);
    }
    loop
        invariant
            0 <= i <= a.len(),
            i <= b.len(),
            bytes_lt(a@, b@) == bytes_lt(a@.skip(i as int), b@.skip(i as int)),
        decreases a.len() - i,
    {
        if i == b.len() {
            return false;
        }
        if i == a.len() {
            return true;
        }
        let x = a[i];
        let y = b[i];
        if x < y {
            return true;
        }
        if x > y {
            return false;
        }
        proof {
            assert(a@.skip(i as int).drop_first() =~= a@.skip(i + 1));
            assert(b@.skip(i as int).drop_first() =~= b@.skip(i + 1));
        }
        i += 1;
    }
}

impl FsPath {
    /// The two paths are the same.
    pub fn path_eq(&self, other: &FsPath) -> (r: bool)
        ensures
            r == (self@ == other@),
    {
        if self.parts.len() != other.parts.len() {
            proof {
                assert(self@.len() == self.parts@.len());
                assert(other@.len() == other.parts@.len());
            }
            return false;
        }
        let n = self.parts.len();
        let mut i: usize = 0;
        while i < n
            invariant
                n == self.parts.len() == other.parts.len(),
                0 <= i <= n,
                forall|j: int| 0 <= j < i ==> self@[j] == other@[j],
            decreases n - i,
        {
            if !bytes_eq(&self.parts[i], &other.parts[i]) {
                proof {
                    assert(self@[i as int] != other@[i as int]);
                }
                return false;
            }
            i += 1;
        }
        proof {
            assert(self@ =~= other@);
        }
        true
    }

    /// `prefix` is a componentwise prefix of this path, as directory
    /// containment reads it: the path lies at or below `prefix`.
    pub fn starts_with(&self, prefix: &FsPath) -> (r: bool)
        ensures
            r == prefix@.is_prefix_of(self@),
    {
        if prefix.parts.len() > self.parts.len() {
            return false;
        }
        let n = prefix.parts.len();
        let mut i: usize = 0;
        while i < n
            invariant
                n == prefix.parts.len() <= self.parts.len(),
                0 <= i <= n,
                forall|j: int| 0 <= j < i ==> prefix@[j] == self@[j],
            decreases n - i,
        {
            if !bytes_eq(&prefix.parts[i], &self.parts[i]) {
                proof {
                    assert(self@.subrange(0, prefix@.len() as int)[i as int]
                        == self@[i as int]);
                    assert(prefix@[i as int] != self@[i as int]);
                }
                return false;
            }
            i += 1;
        }
        proof {
            assert(prefix@ =~= self@.subrange(0, prefix@.len() as int));
        }
        true
    }

    /// The path lies under one of the never-traversed pseudo-filesystem
    /// prefixes.
    pub fn is_special(&self) -> (r: bool)
        ensures
            r == is_special_path(self@),
    {
        if self.parts.len() < 2 {
            return false;
        }
        let c0 = &self.parts[0];
        // the root component "/"
        if !(c0.len() == 1 && c0[0] == 47) {
            proof {
                if self@[0] == root_component() {
                    assert(self.parts@[0]@.len() == 1 && self.parts@[0]@[0] == 47u8);
                }
            }
            return false;
        }
        proof {
            assert(self@[0] =~= root_component());
        }
        let c1 = &self.parts[1];
        // "dev"
        if c1.len() == 3 && c1[0] == 100 && c1[1] == 101 && c1[2] == 118 {
            proof {
                assert(self@[1] =~= dev_name());
            }
            return true;
        }
        // "proc"
        if c1.len() == 4 && c1[0] == 112 && c1[1] == 114 && c1[2] == 111 && c1[3] == 99 {
            proof {
                assert(self@[1] =~= proc_name());
            }
            return true;
        }
        // "mnt"
        if c1.len() == 3 && c1[0] == 109 && c1[1] == 110 && c1[2] == 116 {
            proof {
                assert(self@[1] =~= mnt_name());
            }
            return true;
        }
        proof {
            if self@[1] == dev_name() {
                assert(self.parts@[1]@[0] == 100u8);
            }
            if self@[1] == proc_name() {
                assert(self.parts@[1]@[0] == 112u8);
            }
            if self@[1] == mnt_name() {
                assert(self.parts@[1]@[0] == 109u8);
            }
        }
        false
    }

    /// The path one component up, when there is one.
    pub open spec fn parent_path_spec(&self) -> Option<Seq<Seq<u8>>> {
        if self@.len() > 0 {
            Some(self@.drop_last())
        } else {
            None
        }
    }

    /// Drops the last component: the parent directory's path.
    pub fn parent(&self) -> (r: Option<FsPath>)
        ensures
            match r {
                Some(p) => self@.len() > 0 && p@ == self@.drop_last(),
                None => self@.len() == 0,
            },
    {
        if self.parts.len() == 0 {
            return None;
        }
        let mut p = self.clone();
        p.parts.pop();
        proof {
            assert(p@ =~= self@.drop_last());
        }
        Some(p)
    }

    /// Strict lexicographic comparison, the order siblings are sorted in.
    pub fn path_less(&self, other: &FsPath) -> (r: bool)
        ensures
            r == path_lt(self@, other@),
    {
        let mut i: usize = 0;
        proof {
            assert(self@.skip(0) =~= self@);
            assert(other@.skip(0) =~= other@);
        }
        loop
            invariant
                0 <= i <= self.parts.len(),
                i <= other.parts.len(),
                path_lt(self@, other@) == path_lt(
                    self@.skip(i as int),
                    other@.skip(i as int),
                ),
            decreases self.parts.len() - i,
        {
            if i == other.parts.len() {
                return false;
            }
            if i == self.parts.len() {
                return true;
            }
            if !bytes_eq(&self.parts[i], &other.parts[i]) {
                return bytes_less(&self.parts[i], &other.parts[i]);
            }
            proof {
                assert(self@.skip(i as int).drop_first() =~= self@.skip(i + 1));
                assert(other@.skip(i as int).drop_first() =~= other@.skip(i + 1));
            }
            i += 1;
        }
    }
}

impl Clone for FsPath {
    fn clone(&self) -> (r: Self)
        ensures
            r@ == self@,
    {
        let r = FsPath { parts: self.parts.clone() };
        proof {
            vstd::std_specs::vec::vec_clone_deep_view_proof(self.parts, r.parts);
            assert forall|i: int| 0 <= i < self.parts@.len() implies r.parts@[i]@
                == self.parts@[i]@ by {
                assert(self.parts.deep_view()[i] == r.parts.deep_view()[i]);
                assert(self.parts@[i].deep_view() =~= self.parts@[i]@);
                assert(r.parts@[i].deep_view() =~= r.parts@[i]@);
            }
            assert(r@ =~= self@);
        }
        r
    }
}

} // verus!
