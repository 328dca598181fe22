//! Symbolic addresses of locations inside a node's fact trees.

use vstd::prelude::*;

verus! {

/// An immutable ordered sequence of signed components addressing one
/// location inside a node's fact trees.
///
/// Non-negative components select a field or an element index; the
/// sentinel `-1` appended to the path of an indexable container addresses
/// that container's length or root metadata. At the tensor-aggregate
/// level the components `0`, `1`, `2` and `3` select the element type,
/// the rank, the shape and the value.
#[derive(Debug)]
pub struct Path {
    components: Vec<isize>,
}

impl View for Path {
    type V = Seq<isize>;

    closed spec fn view(&self) -> Seq<isize> {
        self.components@
    }
}

impl Path {
    /// Wraps a sequence of components into an address.
    pub fn new(components: Vec<isize>) -> (p: Path)
        ensures
            p@ == components@,
    {
        Path { components }
    }

    /// The number of components.
    pub fn len(&self) -> (n: usize)
        ensures
            n == self@.len(),
    {
        self.components.len()
    }

    /// The component at position `i`.
    pub fn component(&self, i: usize) -> (c: isize)
        requires
            i < self@.len(),
        ensures
            c == self@[i as int],
    {
        self.components[i]
    }

    /// A copy of the components, for callers that hold addresses as plain
    /// vectors.
    pub fn to_vec(&self) -> (v: Vec<isize>)
        ensures
            v@ == self@,
    {
        let mut v: Vec<isize> = Vec::new();
        let mut i: usize = 0;
        while i < self.components.len()
            invariant
                i <= self.components@.len(),
                v@ == self.components@.subrange(0, i as int),
            decreases self.components@.len() - i,
        {
            v.push(self.components[i]);
            i = i + 1;
        }
        proof {
            assert(v@ =~= self.components@);
        }
        v
    }

    /// The address of the child reached from `self` by the selector `c`.
    pub fn child(&self, c: isize) -> (p: Path)
        ensures
            p@ == self@.push(c),
    {
        let mut components = self.to_vec();
        components.push(c);
        Path { components }
    }

    /// The concatenation of `self` with every component of `suffix`.
    pub fn concat(&self, suffix: &Path) -> (p: Path)
        ensures
            p@ == self@ + suffix@,
    {
        let mut components = self.to_vec();
        let mut j: usize = 0;
        while j < suffix.components.len()
            invariant
                j <= suffix.components@.len(),
                components@ == self@ + suffix.components@.subrange(0, j as int),
            decreases suffix.components@.len() - j,
        {
            components.push(suffix.components[j]);
            j = j + 1;
        }
        proof {
            assert(components@ =~= self@ + suffix.components@);
        }
        Path { components }
    }

    /// A copy of this address.
    pub fn duplicate(&self) -> (p: Path)
        ensures
            p@ == self@,
    {
        Path { components: self.to_vec() }
    }

    /// The selector under which `child` sits directly below `self`,
    /// or `None` when `child` is not `self` extended by one component.
    pub fn selector_of(&self, child: &Path) -> (r: Option<isize>)
        ensures
            match r {
                Some(c) => child@ == self@.push(c),
                None => forall|c: isize| child@ != self@.push(c),
            },
    {
        let n = self.components.len();
        if child.components.len() == 0 || child.components.len() - 1 != n {
            return None;
        }
        let mut i: usize = 0;
        while i < n
            invariant
                i <= n,
                n == self@.len(),
                child@.len() == n + 1,
                forall|k: int| 0 <= k < i ==> child@[k] == self@[k],
            decreases n - i,
        {
            if self.components[i] != child.components[i] {
                proof {
                    assert forall|c: isize| child@ != self@.push(c) by {
                        assert(self@.push(c)[i as int] == self@[i as int]);
                    }
                }
                return None;
            }
            i = i + 1;
        }
        let c = child.components[n];
        proof {
            assert(child@ =~= self@.push(c));
        }
        Some(c)
    }
}

impl PartialEq for Path {
    /// Paths are equal exactly when their component sequences are.
    fn eq(&self, other: &Path) -> (r: bool) {
        if self.components.len() != other.components.len() {
            return false;
        }
        let mut i: usize = 0;
        while i < self.components.len()
            invariant
                i <= self.components@.len(),
                self.components@.len() == other.components@.len(),
                forall|k: int| 0 <= k < i ==> self.components@[k] == other.components@[k],
            decreases self.components@.len() - i,
        {
            if self.components[i] != other.components[i] {
                return false;
            }
            i = i + 1;
        }
        proof {
            assert(self.components@ =~= other.components@);
        }
        true
    }
}

impl vstd::std_specs::cmp::PartialEqSpecImpl for Path {
    open spec fn obeys_eq_spec() -> bool {
        true
    }

    open spec fn eq_spec(&self, other: &Path) -> bool {
        self@ == other@
    }
}

} // verus!
