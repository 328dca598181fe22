//! Typed handles over paths, used to write solver rules.
//!
//! A proxy carries exactly one [`Path`] and never the fact value itself.
//! Composite proxies hand out child proxies on demand: the first access
//! to an index constructs the child at the concatenated path and stores
//! it in the owning [`Cache`]; every later access returns that same
//! stored child.

use vstd::prelude::*;

use crate::cache::Cache;
use crate::fact::{DimFact, IntFact, ShapeFact, TypeFact, ValueFact};
use crate::path::Path;

verus! {

/// A proxy for any value.
pub trait Proxy {
    /// The address the proxy was constructed under.
    spec fn path_spec(&self) -> Seq<isize>;

    /// Returns the symbolic path to the value.
    ///
    /// Take the proxy for the second dimension of the shape of the
    /// first input, for instance: because the inputs vector is encoded
    /// as `0` and the shape field as `2`, its path is `[0, 0, 2, 1]`.
    fn get_path(&self) -> (p: &Path)
        ensures
            p@ == self.path_spec(),
    ;
}

/// A proxy which can be used as an operand in a solver rule; `Output`
/// names the fact kind the proxy resolves to.
pub trait ComparableProxy: Proxy {
    type Output;
}

/// A proxy for any integer-like value.
pub struct IntProxy {
    path: Path,
}

impl IntProxy {
    /// Creates a new IntProxy instance.
    pub fn new(path: Path) -> (p: IntProxy)
        ensures
            p.path_spec() == path@,
    {
        IntProxy { path }
    }
}

impl Proxy for IntProxy {
    closed spec fn path_spec(&self) -> Seq<isize> {
        self.path@
    }

    fn get_path(&self) -> (p: &Path) {
        &self.path
    }
}

impl ComparableProxy for IntProxy {
    type Output = IntFact;
}

/// A proxy for a tensor element type.
pub struct TypeProxy {
    path: Path,
}

impl TypeProxy {
    /// Creates a new TypeProxy instance.
    pub fn new(path: Path) -> (p: TypeProxy)
        ensures
            p.path_spec() == path@,
    {
        TypeProxy { path }
    }
}

impl Proxy for TypeProxy {
    closed spec fn path_spec(&self) -> Seq<isize> {
        self.path@
    }

    fn get_path(&self) -> (p: &Path) {
        &self.path
    }
}

impl ComparableProxy for TypeProxy {
    type Output = TypeFact;
}

/// A proxy for a dimension of a shape.
pub struct DimProxy {
    path: Path,
}

impl DimProxy {
    /// Creates a new DimProxy instance.
    pub fn new(path: Path) -> (p: DimProxy)
        ensures
            p.path_spec() == path@,
    {
        DimProxy { path }
    }
}

impl Proxy for DimProxy {
    closed spec fn path_spec(&self) -> Seq<isize> {
        self.path@
    }

    fn get_path(&self) -> (p: &Path) {
        &self.path
    }
}

impl ComparableProxy for DimProxy {
    type Output = DimFact;
}

/// A proxy for a tensor shape.
pub struct ShapeProxy {
    dims: Cache<DimProxy>,
    path: Path,
}

impl ShapeProxy {
    /// The dimension proxies handed out so far, by index.
    pub closed spec fn cached(&self) -> Map<int, DimProxy> {
        self.dims@
    }

    /// The cache keeps at most one child per index.
    pub closed spec fn cache_wf(&self) -> bool {
        self.dims.wf()
    }

    /// Every child handed out so far sits at the parent path extended
    /// by its index.
    pub open spec fn wf(&self) -> bool {
        &&& self.cache_wf()
        &&& forall|k: int| #[trigger] self.cached().dom().contains(k)
            ==> 0 <= k <= isize::MAX as int
                && self.cached()[k].path_spec() == self.path_spec().push(k as isize)
    }

    /// Creates a new ShapeProxy instance.
    pub fn new(path: Path) -> (s: ShapeProxy)
        ensures
            s.path_spec() == path@,
            s.wf(),
            s.cached() == Map::<int, DimProxy>::empty(),
    {
        ShapeProxy { dims: Cache::new(), path }
    }

    /// Returns the DimProxy corresponding to the given index.
    ///
    /// The first use of an index constructs the DimProxy at the
    /// concatenated path and caches it; every later use returns the
    /// same stored instance, constructing nothing.
    pub fn index(&mut self, ix: usize) -> (d: &mut DimProxy)
        requires
            old(self).wf(),
            ix as int <= isize::MAX as int,
        ensures
            d.path_spec() == old(self).path_spec().push(ix as isize),
            old(self).cached().dom().contains(ix as int) ==> *d == old(self).cached()[ix as int],
            final(self).cached() == old(self).cached().insert(ix as int, *final(d)),
            final(self).path_spec() == old(self).path_spec(),
            final(self).cache_wf(),
            final(d).path_spec() == d.path_spec() ==> final(self).wf(),
    {
        if !self.dims.contains_key(ix) {
            let p = self.path.child(ix as isize);
            self.dims.insert(ix, DimProxy::new(p));
            proof {
                crate::cache::lemma_map_insert_twice(old(self).cached(), ix as int);
            }
        }
        proof {
            assert(((ix as int) as isize) == (ix as isize));
            assert(old(self).cached() == old(self).dims@);
            assert(self.cached() == self.dims@);
        }
        self.dims.get_mut(ix)
    }
}

impl Proxy for ShapeProxy {
    closed spec fn path_spec(&self) -> Seq<isize> {
        self.path@
    }

    fn get_path(&self) -> (p: &Path) {
        &self.path
    }
}

impl ComparableProxy for ShapeProxy {
    type Output = ShapeFact;
}

/// One stored element proxy, under the index it was requested with.
struct ElemEntry {
    key: usize,
    val: ElementProxy,
}

/// The mathematical contents of a run of element entries: the map from
/// each key to the last value stored under it.
spec fn elem_map(s: Seq<ElemEntry>) -> Map<int, ElementProxy>
    decreases s.len(),
{
    if s.len() == 0 {
        Map::empty()
    } else {
        elem_map(s.drop_last()).insert(s.last().key as int, s.last().val)
    }
}

/// Whether no two element entries share a key.
spec fn elem_distinct(s: Seq<ElemEntry>) -> bool {
    forall|i: int, j: int| 0 <= i < j < s.len() ==> s[i].key != s[j].key
}

/// Whether some element entry carries the key `k`.
spec fn elem_has_key(s: Seq<ElemEntry>, k: int) -> bool {
    exists|i: int| 0 <= i < s.len() && (#[trigger] s[i]).key as int == k
}

proof fn lemma_elem_map_dom(s: Seq<ElemEntry>)
    ensures
        forall|k: int| #[trigger] elem_map(s).dom().contains(k) <==> elem_has_key(s, k),
    decreases s.len(),
{
    if s.len() > 0 {
        lemma_elem_map_dom(s.drop_last());
        assert(elem_map(s)
            == elem_map(s.drop_last()).insert(s.last().key as int, s.last().val));
        assert forall|k: int| #[trigger] elem_map(s).dom().contains(k)
            implies elem_has_key(s, k) by {
            if k == s.last().key as int {
                assert(s[s.len() - 1].key as int == k);
            } else {
                assert(elem_map(s.drop_last()).dom().contains(k));
                assert(elem_has_key(s.drop_last(), k));
                let i = choose|i: int|
                    0 <= i < s.drop_last().len() && (#[trigger] s.drop_last()[i]).key as int == k;
                assert(s[i] == s.drop_last()[i]);
                assert(s[i].key as int == k);
            }
        }
        assert forall|k: int| elem_has_key(s, k)
            implies #[trigger] elem_map(s).dom().contains(k) by {
            let i = choose|i: int| 0 <= i < s.len() && (#[trigger] s[i]).key as int == k;
            if i < s.len() - 1 {
                assert(s.drop_last()[i] == s[i]);
                assert(elem_has_key(s.drop_last(), k));
                assert(elem_map(s.drop_last()).dom().contains(k));
            }
        }
    }
}

proof fn lemma_elem_map_at(s: Seq<ElemEntry>, i: int)
    requires
        elem_distinct(s),
        0 <= i < s.len(),
    ensures
        elem_map(s).dom().contains(s[i].key as int),
        elem_map(s)[s[i].key as int] == s[i].val,
    decreases s.len(),
{
    if i == s.len() - 1 {
    } else {
        assert(elem_distinct(s.drop_last()));
        assert(s.drop_last()[i] == s[i]);
        lemma_elem_map_at(s.drop_last(), i);
        assert(s[i].key != s.last().key);
    }
}

proof fn lemma_elem_map_update(s: Seq<ElemEntry>, i: int)
    requires
        elem_distinct(s),
        0 <= i < s.len(),
    ensures
        forall|w: ElementProxy| elem_map(s.update(i, (ElemEntry { key: s[i].key, val: w })))
            == elem_map(s).insert(s[i].key as int, w),
    decreases s.len(),
{
    assert forall|w: ElementProxy| elem_map(s.update(i, (ElemEntry { key: s[i].key, val: w })))
        == elem_map(s).insert(s[i].key as int, w) by {
        let e = ElemEntry { key: s[i].key, val: w };
        if i == s.len() - 1 {
            assert(s.update(i, e).drop_last() =~= s.drop_last());
            assert(s.update(i, e).last() == e);
        } else {
            assert(elem_distinct(s.drop_last()));
            assert(s.drop_last()[i] == s[i]);
            lemma_elem_map_update(s.drop_last(), i);
            assert(s.update(i, e).drop_last() =~= s.drop_last().update(i, e));
            assert(s.update(i, e).last() == s.last());
            assert(s[i].key != s.last().key);
            assert(elem_map(s.drop_last().update(i, e))
                == elem_map(s.drop_last()).insert(s[i].key as int, w));
            assert(elem_map(s.update(i, e))
                =~= elem_map(s).insert(s[i].key as int, w));
        }
    }
}

/// The element proxies' own memoizing table.
///
/// It restates [`Cache`] for one fixed child type because the element
/// proxy is self-referential, and Verus does not take a recursive
/// instantiation of a generic container of this crate.
struct ElemTable {
    entries: Vec<ElemEntry>,
}

impl ElemTable {
    spec fn view(&self) -> Map<int, ElementProxy> {
        elem_map(self.entries@)
    }

    spec fn wf(&self) -> bool {
        elem_distinct(self.entries@)
    }

    fn new() -> (t: ElemTable)
        ensures
            t.view() == Map::<int, ElementProxy>::empty(),
            t.wf(),
    {
        ElemTable { entries: Vec::new() }
    }

    fn contains_key(&self, key: usize) -> (b: bool)
        ensures
            b == self.view().dom().contains(key as int),
    {
        let mut i: usize = 0;
        while i < self.entries.len()
            invariant
                i <= self.entries@.len(),
                forall|j: int| 0 <= j < i ==> self.entries@[j].key != key,
            decreases self.entries@.len() - i,
        {
            if self.entries[i].key == key {
                proof {
                    lemma_elem_map_dom(self.entries@);
                    assert(self.entries@[i as int].key as int == key as int);
                    assert(elem_has_key(self.entries@, key as int));
                }
                return true;
            }
            i = i + 1;
        }
        proof {
            lemma_elem_map_dom(self.entries@);
        }
        false
    }

    fn insert(&mut self, key: usize, val: ElementProxy)
        requires
            old(self).wf(),
            !old(self).view().dom().contains(key as int),
        ensures
            final(self).view() == old(self).view().insert(key as int, val),
            final(self).wf(),
    {
        proof {
            lemma_elem_map_dom(self.entries@);
        }
        self.entries.push(ElemEntry { key, val });
        proof {
            assert(self.entries@.drop_last() =~= old(self).entries@);
        }
    }

    fn get_mut(&mut self, key: usize) -> (r: &mut ElementProxy)
        requires
            old(self).wf(),
            old(self).view().dom().contains(key as int),
        ensures
            *r == old(self).view()[key as int],
            final(self).view() == old(self).view().insert(key as int, *final(r)),
            final(self).wf(),
    {
        let mut i: usize = 0;
        let n: usize = self.entries.len();
        while i < n
            invariant
                i <= self.entries@.len(),
                n == self.entries@.len(),
                old(self).wf(),
                self == old(self),
                old(self).view().dom().contains(key as int),
                forall|j: int| 0 <= j < i ==> self.entries@[j].key != key,
            decreases n - i,
        {
            if self.entries[i].key == key {
                proof {
                    lemma_elem_map_at(self.entries@, i as int);
                    lemma_elem_map_update(self.entries@, i as int);
                }
                let entry = &mut self.entries[i];
                return &mut entry.val;
            }
            i = i + 1;
        }
        proof {
            lemma_elem_map_dom(self.entries@);
            assert(false);
        }
        let entry = &mut self.entries[0];
        &mut entry.val
    }
}

/// A proxy for a tensor element, supporting arbitrarily nested
/// indexing into the tensor's contents.
pub struct ElementProxy {
    sub: ElemTable,
    path: Path,
}

impl ElementProxy {
    /// The element proxies handed out so far, by index.
    pub closed spec fn cached(&self) -> Map<int, ElementProxy> {
        self.sub.view()
    }

    /// The cache keeps at most one child per index.
    pub closed spec fn cache_wf(&self) -> bool {
        self.sub.wf()
    }

    /// Every child handed out so far sits at the parent path extended
    /// by its index.
    pub open spec fn wf(&self) -> bool {
        &&& self.cache_wf()
        &&& forall|k: int| #[trigger] self.cached().dom().contains(k)
            ==> 0 <= k <= isize::MAX as int
                && self.cached()[k].path_spec() == self.path_spec().push(k as isize)
    }

    /// Creates a new ElementProxy instance.
    pub fn new(path: Path) -> (e: ElementProxy)
        ensures
            e.path_spec() == path@,
            e.wf(),
            e.cache_wf(),
            e.cached() == Map::<int, ElementProxy>::empty(),
    {
        ElementProxy { sub: ElemTable::new(), path }
    }

    /// Returns the ElementProxy corresponding to the given index.
    ///
    /// The first use of an index constructs the child element proxy at
    /// the concatenated path and caches it; every later use returns the
    /// same stored instance, constructing nothing.
    pub fn index(&mut self, ix: usize) -> (e: &mut ElementProxy)
        requires
            old(self).cache_wf(),
            ix as int <= isize::MAX as int,
        ensures
            old(self).cached().dom().contains(ix as int) ==> *e == old(self).cached()[ix as int],
            !old(self).cached().dom().contains(ix as int) ==> {
                &&& e.path_spec() == old(self).path_spec().push(ix as isize)
                &&& e.wf()
                &&& e.cached() == Map::<int, ElementProxy>::empty()
            },
            old(self).wf() ==> e.path_spec() == old(self).path_spec().push(ix as isize),
            final(self).cached() == old(self).cached().insert(ix as int, *final(e)),
            final(self).path_spec() == old(self).path_spec(),
            final(self).cache_wf(),
            old(self).wf() && final(e).path_spec() == e.path_spec() ==> final(self).wf(),
    {
        if !self.sub.contains_key(ix) {
            let p = self.path.child(ix as isize);
            self.sub.insert(ix, ElementProxy::new(p));
            proof {
                crate::cache::lemma_map_insert_twice(old(self).cached(), ix as int);
            }
        }
        proof {
            assert(((ix as int) as isize) == (ix as isize));
            assert(old(self).cached() == old(self).sub.view());
            assert(self.cached() == self.sub.view());
        }
        self.sub.get_mut(ix)
    }
}

impl Proxy for ElementProxy {
    closed spec fn path_spec(&self) -> Seq<isize> {
        self.path@
    }

    fn get_path(&self) -> (p: &Path) {
        &self.path
    }
}

impl ComparableProxy for ElementProxy {
    type Output = IntFact;
}

/// A proxy for the whole tensor value.
///
/// This proxy allows arbitrarily nested indexing, so that addressing
/// `value[1][6][2]` always works: each level hands out cached
/// [`ElementProxy`] children on the fly. A distinguished root access
/// addresses whole-value metadata at the sentinel component `-1`.
pub struct ValueProxy {
    sub: Cache<ElementProxy>,
    root: IntProxy,
    path: Path,
}

impl ValueProxy {
    /// The element proxies handed out so far, by index.
    pub closed spec fn cached(&self) -> Map<int, ElementProxy> {
        self.sub@
    }

    /// The cache keeps at most one child per index.
    pub closed spec fn cache_wf(&self) -> bool {
        self.sub.wf()
    }

    /// The root metadata proxy.
    pub closed spec fn root_spec(&self) -> IntProxy {
        self.root
    }

    /// The root proxy sits at the sentinel path, and every child handed
    /// out so far sits at the parent path extended by its index and
    /// keeps a single child per index itself.
    pub open spec fn wf(&self) -> bool {
        &&& self.cache_wf()
        &&& self.root_spec().path_spec() == self.path_spec().push(-1isize)
        &&& forall|k: int| #[trigger] self.cached().dom().contains(k)
            ==> 0 <= k <= isize::MAX as int
                && self.cached()[k].path_spec() == self.path_spec().push(k as isize)
                && self.cached()[k].cache_wf()
    }

    /// Creates a new ValueProxy instance.
    pub fn new(path: Path) -> (v: ValueProxy)
        ensures
            v.path_spec() == path@,
            v.wf(),
            v.cached() == Map::<int, ElementProxy>::empty(),
    {
        let root = IntProxy::new(path.child(-1));
        ValueProxy { sub: Cache::new(), root, path }
    }

    /// Returns the IntProxy addressing the whole-value root metadata.
    pub fn root(&self) -> (r: &IntProxy)
        requires
            self.wf(),
        ensures
            r.path_spec() == self.path_spec().push(-1isize),
    {
        &self.root
    }

    /// Returns the ElementProxy corresponding to the given index.
    ///
    /// The first use of an index constructs the element proxy at the
    /// concatenated path and caches it; every later use returns the
    /// same stored instance, constructing nothing.
    pub fn index(&mut self, ix: usize) -> (e: &mut ElementProxy)
        requires
            old(self).wf(),
            ix as int <= isize::MAX as int,
        ensures
            e.path_spec() == old(self).path_spec().push(ix as isize),
            e.cache_wf(),
            old(self).cached().dom().contains(ix as int) ==> *e == old(self).cached()[ix as int],
            !old(self).cached().dom().contains(ix as int) ==> e.wf()
                && e.cached() == Map::<int, ElementProxy>::empty(),
            final(self).cached() == old(self).cached().insert(ix as int, *final(e)),
            final(self).path_spec() == old(self).path_spec(),
            final(self).root_spec() == old(self).root_spec(),
            final(self).cache_wf(),
            final(e).path_spec() == e.path_spec() && final(e).cache_wf() ==> final(self).wf(),
    {
        if !self.sub.contains_key(ix) {
            let p = self.path.child(ix as isize);
            self.sub.insert(ix, ElementProxy::new(p));
            proof {
                crate::cache::lemma_map_insert_twice(old(self).cached(), ix as int);
            }
        }
        proof {
            assert(((ix as int) as isize) == (ix as isize));
            assert(old(self).cached() == old(self).sub.view());
            assert(self.cached() == self.sub.view());
        }
        self.sub.get_mut(ix)
    }
}

impl Proxy for ValueProxy {
    closed spec fn path_spec(&self) -> Seq<isize> {
        self.path@
    }

    fn get_path(&self) -> (p: &Path) {
        &self.path
    }
}

impl ComparableProxy for ValueProxy {
    type Output = ValueFact;
}

/// A proxy for a tensor.
///
/// This is used for rules involving the element type, rank, shape or
/// value of a tensor. The four children sit at fixed selectors under
/// the tensor's own path: element type at `0`, rank at `1`, shape at
/// `2`, value at `3`; there is exactly one of each per tensor, so they
/// are derived once at construction time.
pub struct SharedTensorProxy {
    pub datum_type: TypeProxy,
    pub rank: IntProxy,
    pub shape: ShapeProxy,
    pub value: ValueProxy,
    pub path: Path,
}

impl SharedTensorProxy {
    /// The four children sit at the fixed selectors under the tensor's
    /// path, and the indexable children are themselves well formed.
    pub open spec fn wf(&self) -> bool {
        &&& self.datum_type.path_spec() == self.path_spec().push(0)
        &&& self.rank.path_spec() == self.path_spec().push(1)
        &&& self.shape.path_spec() == self.path_spec().push(2)
        &&& self.value.path_spec() == self.path_spec().push(3)
        &&& self.shape.wf()
        &&& self.value.wf()
    }

    /// Creates a new SharedTensorProxy instance.
    pub fn new(path: Path) -> (t: SharedTensorProxy)
        ensures
            t.path_spec() == path@,
            t.wf(),
            t.shape.cached() == Map::<int, DimProxy>::empty(),
            t.value.cached() == Map::<int, ElementProxy>::empty(),
    {
        let datum_type = TypeProxy::new(path.child(0));
        let rank = IntProxy::new(path.child(1));
        let shape = ShapeProxy::new(path.child(2));
        let value = ValueProxy::new(path.child(3));
        SharedTensorProxy { datum_type, rank, shape, value, path }
    }
}

impl Proxy for SharedTensorProxy {
    closed spec fn path_spec(&self) -> Seq<isize> {
        self.path@
    }

    fn get_path(&self) -> (p: &Path) {
        &self.path
    }
}

/// A proxy for a vector of tensors.
///
/// This is used for rules concerning the vector of input or output
/// tensors, whose length sits at the sentinel component `-1` under the
/// vector's path. Indexing hands out one cached [`SharedTensorProxy`]
/// per index.
///
/// The proxy layer does not check an index against the length fact:
/// coherence of the two is the solver's responsibility.
pub struct SharedTensorsProxy {
    pub len: IntProxy,
    pub tensors: Cache<SharedTensorProxy>,
    pub path: Path,
}

impl SharedTensorsProxy {
    /// The tensor proxies handed out so far, by index.
    pub closed spec fn cached(&self) -> Map<int, SharedTensorProxy> {
        self.tensors@
    }

    /// The cache keeps at most one child per index.
    pub closed spec fn cache_wf(&self) -> bool {
        self.tensors.wf()
    }

    /// The length proxy sits at the sentinel path, and every tensor
    /// proxy handed out so far sits at the vector path extended by its
    /// index and is itself well formed.
    pub open spec fn wf(&self) -> bool {
        &&& self.cache_wf()
        &&& self.len.path_spec() == self.path_spec().push(-1isize)
        &&& forall|k: int| #[trigger] self.cached().dom().contains(k)
            ==> 0 <= k <= isize::MAX as int
                && self.cached()[k].path_spec() == self.path_spec().push(k as isize)
                && self.cached()[k].wf()
    }

    /// Creates a new SharedTensorsProxy instance.
    pub fn new(path: Path) -> (v: SharedTensorsProxy)
        ensures
            v.path_spec() == path@,
            v.wf(),
            v.cached() == Map::<int, SharedTensorProxy>::empty(),
    {
        let len = IntProxy::new(path.child(-1));
        SharedTensorsProxy { len, tensors: Cache::new(), path }
    }

    /// Returns the SharedTensorProxy corresponding to the given index.
    ///
    /// When an index is used for the first time, the SharedTensorProxy
    /// is created at the concatenated path and cached; every later call
    /// returns that same stored instance, constructing nothing.
    pub fn index(&mut self, ix: usize) -> (t: &mut SharedTensorProxy)
        requires
            old(self).wf(),
            ix as int <= isize::MAX as int,
        ensures
            t.path_spec() == old(self).path_spec().push(ix as isize),
            t.wf(),
            old(self).cached().dom().contains(ix as int) ==> *t == old(self).cached()[ix as int],
            !old(self).cached().dom().contains(ix as int) ==> {
                &&& t.shape.cached() == Map::<int, DimProxy>::empty()
                &&& t.value.cached() == Map::<int, ElementProxy>::empty()
            },
            final(self).cached() == old(self).cached().insert(ix as int, *final(t)),
            final(self).path_spec() == old(self).path_spec(),
            final(self).len == old(self).len,
            final(self).cache_wf(),
            final(t).wf() && final(t).path_spec() == t.path_spec() ==> final(self).wf(),
    {
        if !self.tensors.contains_key(ix) {
            let p = self.path.child(ix as isize);
            self.tensors.insert(ix, SharedTensorProxy::new(p));
            proof {
                crate::cache::lemma_map_insert_twice(old(self).cached(), ix as int);
            }
        }
        proof {
            assert(((ix as int) as isize) == (ix as isize));
            assert(old(self).cached() == old(self).tensors@);
            assert(self.cached() == self.tensors@);
        }
        self.tensors.get_mut(ix)
    }
}

impl Proxy for SharedTensorsProxy {
    closed spec fn path_spec(&self) -> Seq<isize> {
        self.path@
    }

    fn get_path(&self) -> (p: &Path) {
        &self.path
    }
}

} // verus!
