use vstd::prelude::*;
use crate::layout::{
    Layout, align, layouts_valid, columns_end, column_start, cell_start, lemma_cell_in_column,
    lemma_cells_disjoint, lemma_columns_ordered, lemma_align_positive,
};

verus! {

/// fxhash's hasher, carried opaquely as the hasher of the offset map.
#[verifier::external_type_specification]
#[verifier::external_body]
pub struct ExFxHasher(fxhash::FxHasher);

/// std's builder of default hashers, carried opaquely in the offset map's type.
#[verifier::external_type_specification]
#[verifier::external_body]
#[verifier::reject_recursive_types(H)]
pub struct ExBuildHasherDefault<H>(std::hash::BuildHasherDefault<H>);

/// Column offsets keyed by type identifier.
type OffsetMap = fxhash::FxHashMap<u64, usize>;

/// Relies on `Default` for std's HashMap under fxhash's hasher: the map starts empty.
#[verifier::external_body]
fn offsets_new() -> (r: OffsetMap)
    ensures
        forall|k: u64| !r@.contains_key(k),
{
    fxhash::FxHashMap::default()
}

/// Relies on std's HashMap::insert under fxhash's hasher: the key now maps to
/// the value, every other key as before.
#[verifier::external_body]
fn offsets_insert(m: &mut OffsetMap, k: u64, v: usize)
    ensures
        final(m)@ == old(m)@.insert(k, v),
{
    m.insert(k, v);
}

/// Relies on std's HashMap::get under fxhash's hasher: the value of the key, if
/// the map holds it.
#[verifier::external_body]
fn offsets_get(m: &OffsetMap, k: u64) -> (r: Option<usize>)
    ensures
        r == if m@.contains_key(k) {
            Some(m@[k])
        } else {
            None
        },
{
    m.get(&k).copied()
}

/// Runtime description of a component type: its identifier and its layout.
#[derive(Clone, Copy)]
pub struct TypeInfo {
    id: u64,
    layout: Layout,
}

/// Relies on fxhash::hash64 over std::any::TypeId::of: a 64-bit identifier of
/// `T`, stable within one build. Nothing is stated of its value.
#[verifier::external_body]
fn type_key<T: 'static>() -> (r: u64) {
    fxhash::hash64(&std::any::TypeId::of::<T>())
}

impl TypeInfo {
    pub closed spec fn id_spec(&self) -> u64 {
        self.id
    }

    pub closed spec fn layout_spec(&self) -> Layout {
        self.layout
    }

    /// A descriptor for the type identified by `id`, with the given layout.
    pub fn new(id: u64, layout: Layout) -> (r: TypeInfo)
        ensures
            r.id_spec() == id,
            r.layout_spec() == layout,
    {
        TypeInfo { id, layout }
    }

    /// The descriptor of `T`.
    pub fn of<T: 'static>() -> (r: TypeInfo)
        ensures
            r.layout_spec().size_spec() == vstd::layout::size_of::<T>(),
            r.layout_spec().align_spec() == vstd::layout::align_of::<T>(),
            r.layout_spec().valid(),
    {
        TypeInfo { id: type_key::<T>(), layout: Layout::new::<T>() }
    }

    pub fn id(&self) -> (r: u64)
        ensures
            r == self.id_spec(),
    {
        self.id
    }

    pub fn layout(&self) -> (r: Layout)
        ensures
            r == self.layout_spec(),
    {
        self.layout
    }

}

/// Descriptors sort by alignment, largest first, then by identifier.
pub open spec fn type_order(a: &TypeInfo, b: &TypeInfo) -> core::cmp::Ordering {
    let x = a.layout_spec().align_spec();
    let y = b.layout_spec().align_spec();
    if x > y {
        core::cmp::Ordering::Less
    } else if x < y {
        core::cmp::Ordering::Greater
    } else if a.id_spec() < b.id_spec() {
        core::cmp::Ordering::Less
    } else if a.id_spec() > b.id_spec() {
        core::cmp::Ordering::Greater
    } else {
        core::cmp::Ordering::Equal
    }
}

/// Descriptors are equal when their identifiers and alignments are, which is
/// when the ordering puts neither before the other.
impl PartialEq for TypeInfo {
    fn eq(&self, other: &TypeInfo) -> (r: bool) {
        self.id == other.id && self.layout.align() == other.layout.align()
    }
}

impl vstd::std_specs::cmp::PartialEqSpecImpl for TypeInfo {
    open spec fn obeys_eq_spec() -> bool {
        true
    }

    open spec fn eq_spec(&self, other: &TypeInfo) -> bool {
        self.id_spec() == other.id_spec() && self.layout_spec().align_spec()
            == other.layout_spec().align_spec()
    }
}

impl Eq for TypeInfo {}

impl PartialOrd for TypeInfo {
    fn partial_cmp(&self, other: &TypeInfo) -> (r: Option<core::cmp::Ordering>) {
        let x = self.layout.align();
        let y = other.layout.align();
        if x > y {
            Some(core::cmp::Ordering::Less)
        } else if x < y {
            Some(core::cmp::Ordering::Greater)
        } else if self.id < other.id {
            Some(core::cmp::Ordering::Less)
        } else if self.id > other.id {
            Some(core::cmp::Ordering::Greater)
        } else {
            Some(core::cmp::Ordering::Equal)
        }
    }
}

impl vstd::std_specs::cmp::PartialOrdSpecImpl for TypeInfo {
    open spec fn obeys_partial_cmp_spec() -> bool {
        true
    }

    open spec fn partial_cmp_spec(&self, other: &TypeInfo) -> Option<core::cmp::Ordering> {
        Some(type_order(self, other))
    }
}

/// The layouts of a sequence of descriptors.
pub open spec fn layouts_of(types: Seq<TypeInfo>) -> Seq<Layout> {
    types.map_values(|t: TypeInfo| t.layout_spec())
}

/// Each descriptor has a valid layout, and no two share an identifier.
pub open spec fn types_valid(types: Seq<TypeInfo>) -> bool {
    &&& layouts_valid(layouts_of(types))
    &&& forall|i: int, k: int|
        0 <= i < types.len() && 0 <= k < types.len() && i != k ==> #[trigger] types[i].id_spec()
            != #[trigger] types[k].id_spec()
}

/// Storage for `cap` values per column of these types fits in memory, with
/// room for each column's alignment padding.
pub open spec fn layout_fits(types: Seq<TypeInfo>, cap: int) -> bool {
    &&& columns_end(layouts_of(types), cap, types.len() as int) <= usize::MAX
    &&& forall|i: int|
        0 <= i < types.len() ==> columns_end(layouts_of(types), cap, i) + (
        #[trigger] types[i]).layout_spec().align_spec() - 1 <= usize::MAX
}

/// The bytes of the value at row `j` of column `i`.
pub open spec fn cell(data: Seq<u8>, ls: Seq<Layout>, cap: int, i: int, j: int) -> Seq<u8> {
    data.subrange(cell_start(ls, cap, i, j), cell_start(ls, cap, i, j) + ls[i].size_spec())
}

/// The capacity that follows `cap` when storage is full.
pub open spec fn next_capacity(cap: nat) -> nat {
    if cap == 0 {
        64
    } else {
        2 * cap
    }
}

/// Copies `n` bytes of `src`, from `from` on.
fn copy_out(src: &Vec<u8>, from: usize, n: usize) -> (r: Vec<u8>)
    requires
        from + n <= src@.len(),
    ensures
        r@ == src@.subrange(from as int, from + n),
{
    let len = src.len();
    let mut r: Vec<u8> = Vec::new();
    let mut t: usize = 0;
    while t < n
        invariant
            t <= n,
            from + n <= src@.len(),
            len == src@.len(),
            r@ == src@.subrange(from as int, from + t),
        decreases n - t,
    {
        r.push(src[from + t]);
        t = t + 1;
        proof {
            assert(r@ =~= src@.subrange(from as int, from + t));
        }
    }
    r
}

/// Writes `src` over the bytes of `dst` from `at` on.
fn copy_in(dst: &mut Vec<u8>, at: usize, src: &[u8])
    requires
        at + src@.len() <= old(dst)@.len(),
    ensures
        final(dst)@.len() == old(dst)@.len(),
        forall|p: int|
            0 <= p < old(dst)@.len() ==> #[trigger] final(dst)@[p] == if at <= p < at + src@.len() {
                src@[p - at]
            } else {
                old(dst)@[p]
            },
{
    let len = dst.len();
    let mut t: usize = 0;
    while t < src.len()
        invariant
            t <= src@.len(),
            len == old(dst)@.len(),
            at + src@.len() <= dst@.len(),
            dst@.len() == old(dst)@.len(),
            forall|p: int|
                0 <= p < old(dst)@.len() ==> #[trigger] dst@[p] == if at <= p < at + t {
                    src@[p - at]
                } else {
                    old(dst)@[p]
                },
        decreases src@.len() - t,
    {
        dst.set(at + t, src[t]);
        t = t + 1;
    }
}

/// Bytes written over one value leave every other value as it was, and the
/// written value reads back.
proof fn lemma_write_cell(
    d0: Seq<u8>,
    d1: Seq<u8>,
    ls: Seq<Layout>,
    cap: int,
    i: int,
    j: int,
    src: Seq<u8>,
)
    requires
        layouts_valid(ls),
        0 <= i < ls.len(),
        0 <= j < cap,
        d0.len() == columns_end(ls, cap, ls.len() as int),
        d1.len() == d0.len(),
        src.len() == ls[i].size_spec(),
        forall|p: int|
            0 <= p < d0.len() ==> #[trigger] d1[p] == if cell_start(ls, cap, i, j) <= p
                < cell_start(ls, cap, i, j) + src.len() {
                src[p - cell_start(ls, cap, i, j)]
            } else {
                d0[p]
            },
    ensures
        cell(d1, ls, cap, i, j) == src,
        forall|k: int, m: int|
            0 <= k < ls.len() && 0 <= m < cap && (k != i || m != j) ==> #[trigger] cell(
                d1,
                ls,
                cap,
                k,
                m,
            ) == cell(d0, ls, cap, k, m),
{
    lemma_cell_in_column(ls, cap, i, j);
    assert(cell(d1, ls, cap, i, j) =~= src);
    assert forall|k: int, m: int|
        0 <= k < ls.len() && 0 <= m < cap && (k != i || m != j) implies #[trigger] cell(
        d1,
        ls,
        cap,
        k,
        m,
    ) == cell(d0, ls, cap, k, m) by {
        lemma_cell_in_column(ls, cap, k, m);
        lemma_cells_disjoint(ls, cap, i, j, k, m);
        assert(cell(d1, ls, cap, k, m) =~= cell(d0, ls, cap, k, m));
    }
}

/// `m` maps the identifier of each type to the offset of its column for `cap`
/// values per column, and holds no other key.
pub open spec fn offsets_match(m: Map<u64, usize>, types: Seq<TypeInfo>, cap: int) -> bool {
    &&& forall|i: int|
        0 <= i < types.len() ==> m.contains_key(#[trigger] types[i].id_spec()) && m[types[i].id_spec()]
            == column_start(layouts_of(types), cap, i)
    &&& forall|k: u64|
        #[trigger] m.contains_key(k) ==> exists|i: int| 0 <= i < types.len() && types[i].id_spec() == k
}

/// Computes the column offsets for `cap` values per column, and the total size.
fn compute_offsets(types: &Vec<TypeInfo>, cap: usize) -> (r: (OffsetMap, usize))
    requires
        types_valid(types@),
        layout_fits(types@, cap as int),
    ensures
        offsets_match(r.0@, types@, cap as int),
        r.1 == columns_end(layouts_of(types@), cap as int, types@.len() as int),
{
    let ghost ls = layouts_of(types@);
    let mut offsets = offsets_new();
    let mut size: usize = 0;
    let mut i: usize = 0;
    while i < types.len()
        invariant
            i <= types@.len(),
            ls == layouts_of(types@),
            types_valid(types@),
            layout_fits(types@, cap as int),
            size == columns_end(ls, cap as int, i as int),
            forall|k: int|
                0 <= k < i ==> offsets@.contains_key(#[trigger] types@[k].id_spec())
                    && offsets@[types@[k].id_spec()] == column_start(ls, cap as int, k),
            forall|key: u64|
                #[trigger] offsets@.contains_key(key) ==> exists|k: int|
                    0 <= k < i && types@[k].id_spec() == key,
        decreases types@.len() - i,
    {
        let l = types[i].layout();
        proof {
            assert(types@[i as int].layout_spec() == ls[i as int]);
            assert(columns_end(ls, cap as int, i as int) + types@[i as int].layout_spec().align_spec()
                - 1 <= usize::MAX);
            lemma_align_positive(ls, i as int);
            assert(ls[i as int].valid());
            lemma_columns_ordered(ls, cap as int, i + 1, types@.len() as int);
            lemma_columns_ordered(ls, cap as int, i as int, i as int);
            assert(l.size_spec() * cap >= 0) by (nonlinear_arith)
                requires cap >= 0;
        }
        let start = align(size, l.align());
        let ghost before = offsets@;
        offsets_insert(&mut offsets, types[i].id(), start);
        proof {
            assert forall|k: int| 0 <= k < i + 1 implies offsets@.contains_key(
                #[trigger] types@[k].id_spec(),
            ) && offsets@[types@[k].id_spec()] == column_start(ls, cap as int, k) by {
                if k < i {
                    assert(types@[k].id_spec() != types@[i as int].id_spec());
                }
            }
            assert forall|key: u64| #[trigger] offsets@.contains_key(key) implies exists|k: int|
                0 <= k < i + 1 && types@[k].id_spec() == key by {
                if key == types@[i as int].id_spec() {
                    assert(types@[i as int].id_spec() == key);
                } else {
                    assert(before.contains_key(key));
                }
            }
        }
        size = start + l.size() * cap;
        i = i + 1;
    }
    (offsets, size)
}

/// Entities that share one set of component types, stored column by column:
/// for each type, the values of all entities back to back, each column placed
/// at an offset that its alignment allows.
pub struct Archetype {
    types: Vec<TypeInfo>,
    offsets: OffsetMap,
    len: u32,
    entities: Vec<u32>,
    data: Vec<u8>,
}

impl Archetype {
    /// The descriptors, in the order the archetype was built with.
    pub closed spec fn type_seq(&self) -> Seq<TypeInfo> {
        self.types@
    }

    /// The number of live entities.
    pub closed spec fn len_spec(&self) -> nat {
        self.len as nat
    }

    /// The entity identifier of every slot, live or not; as long as the capacity.
    pub closed spec fn entity_ids(&self) -> Seq<u32> {
        self.entities@
    }

    /// The number of slots storage has room for.
    pub open spec fn capacity(&self) -> nat {
        self.entity_ids().len()
    }

    pub open spec fn layouts(&self) -> Seq<Layout> {
        layouts_of(self.type_seq())
    }

    /// The whole storage buffer.
    pub closed spec fn bytes(&self) -> Seq<u8> {
        self.data@
    }

    /// The bytes of the value of column `i` at slot `j`.
    pub open spec fn value(&self, i: int, j: int) -> Seq<u8> {
        cell(self.bytes(), self.layouts(), self.capacity() as int, i, j)
    }

    /// Byte offset of column `i` in the storage buffer.
    pub open spec fn column_offset(&self, i: int) -> int {
        column_start(self.layouts(), self.capacity() as int, i)
    }

    /// Whether a column holds the type identified by `id`.
    pub open spec fn has_type(&self, id: u64) -> bool {
        exists|i: int| 0 <= i < self.type_seq().len() && #[trigger] self.type_seq()[i].id_spec() == id
    }

    /// The column of the type identified by `id`.
    pub open spec fn column_of(&self, id: u64) -> int {
        choose|i: int| 0 <= i < self.type_seq().len() && #[trigger] self.type_seq()[i].id_spec() == id
    }

    /// Byte size of the values of column `i`.
    pub open spec fn size_of_column(&self, i: int) -> nat {
        self.type_seq()[i].layout_spec().size_spec()
    }

    pub closed spec fn wf(&self) -> bool {
        &&& types_valid(self.types@)
        &&& offsets_match(self.offsets@, self.types@, self.capacity() as int)
        &&& self.data@.len() == columns_end(
            self.layouts(),
            self.capacity() as int,
            self.types@.len() as int,
        )
        &&& self.len <= self.entities@.len()
    }

    /// Whether one more entity can be allocated: the count fits in a `u32` and,
    /// when storage is full, storage for the next capacity fits in memory.
    pub open spec fn can_allocate(&self) -> bool {
        &&& self.len_spec() < u32::MAX
        &&& self.len_spec() == self.capacity() ==> next_capacity(self.capacity()) <= usize::MAX
            && layout_fits(self.type_seq(), next_capacity(self.capacity()) as int)
    }

    pub proof fn lemma_wf(&self)
        requires
            self.wf(),
        ensures
            types_valid(self.type_seq()),
            self.len_spec() <= self.capacity(),
            self.bytes().len() == columns_end(
                self.layouts(),
                self.capacity() as int,
                self.type_seq().len() as int,
            ),
    {
    }

    /// An empty archetype for the given types.
    pub fn new(types: Vec<TypeInfo>) -> (r: Self)
        requires
            types_valid(types@),
        ensures
            r.wf(),
            r.type_seq() == types@,
            r.len_spec() == 0,
            r.capacity() == 0,
    {
        proof {
            assert forall|i: int| 0 <= i < types@.len() implies columns_end(
                layouts_of(types@),
                0,
                i,
            ) + (#[trigger] types@[i]).layout_spec().align_spec() - 1 <= usize::MAX by {
                lemma_columns_zero(layouts_of(types@), i);
                assert(layouts_of(types@)[i].valid());
                lemma_align_positive(layouts_of(types@), i);
                assert(layouts_of(types@)[i] == types@[i].layout_spec());
                types@[i].layout_spec().lemma_bounds();
            }
            lemma_columns_zero(layouts_of(types@), types@.len() as int);
        }
        let (offsets, _size) = compute_offsets(&types, 0);
        Archetype { types, offsets, len: 0, entities: Vec::new(), data: Vec::new() }
    }

    /// An empty archetype for the given types, or `None` if two of them share
    /// an identifier or an alignment is not a power of two.
    pub fn try_new(types: Vec<TypeInfo>) -> (r: Option<Self>)
        ensures
            r is Some <==> types_valid(types@),
            r matches Some(a) ==> a.wf() && a.type_seq() == types@ && a.len_spec() == 0
                && a.capacity() == 0,
    {
        if check_types(&types) {
            Some(Archetype::new(types))
        } else {
            None
        }
    }

    /// The column holding the type identified by `id`, if any.
    fn find(&self, id: u64) -> (r: Option<usize>)
        requires
            self.wf(),
        ensures
            r is Some <==> self.has_type(id),
            r matches Some(i) ==> i < self.type_seq().len() && self.type_seq()[i as int].id_spec() == id
                && i == self.column_of(id),
    {
        let mut i: usize = 0;
        while i < self.types.len()
            invariant
                self.wf(),
                i <= self.types@.len(),
                forall|k: int| 0 <= k < i ==> #[trigger] self.types@[k].id_spec() != id,
            decreases self.types@.len() - i,
        {
            if self.types[i].id() == id {
                proof {
                    let c = self.column_of(id);
                    assert(self.type_seq()[i as int].id_spec() == id);
                    assert(0 <= c < self.type_seq().len() && self.type_seq()[c].id_spec() == id);
                    if c != i {
                        assert(self.types@[c].id_spec() != self.types@[i as int].id_spec());
                    }
                }
                return Some(i);
            }
            i = i + 1;
        }
        None
    }

    /// Byte offset of the column of the type identified by `id`, if the
    /// archetype holds that type.
    pub fn data(&self, id: u64) -> (r: Option<usize>)
        requires
            self.wf(),
        ensures
            r is Some <==> self.has_type(id),
            r matches Some(o) ==> o == self.column_offset(self.column_of(id)),
    {
        let r = offsets_get(&self.offsets, id);
        proof {
            if self.has_type(id) {
                let c = self.column_of(id);
                assert(self.types@[c].id_spec() == id);
            }
        }
        r
    }

    /// The number of live entities.
    pub fn len(&self) -> (r: usize)
        ensures
            r == self.len_spec(),
    {
        self.len as usize
    }

    /// The entity identifiers of all slots; the first `len()` are live.
    pub fn entities(&self) -> (r: &[u32])
        ensures
            r@ == self.entity_ids(),
    {
        self.entities.as_slice()
    }

    /// The descriptors of the archetype's types.
    pub fn types(&self) -> (r: &[TypeInfo])
        ensures
            r@ == self.type_seq(),
    {
        self.types.as_slice()
    }

    /// Reads the bytes of the value of column `i` at slot `j`.
    fn read_cell(&self, i: usize, j: usize) -> (r: Vec<u8>)
        requires
            self.wf(),
            i < self.type_seq().len(),
            j < self.capacity(),
        ensures
            r@ == self.value(i as int, j as int),
            r@.len() == self.size_of_column(i as int),
    {
        let size = self.types[i].layout().size();
        let _total = self.data.len();
        proof {
            assert(self.offsets@.contains_key(self.types@[i as int].id_spec()));
            assert(self.layouts()[i as int] == self.types@[i as int].layout_spec());
            lemma_cell_in_column(self.layouts(), self.capacity() as int, i as int, j as int);
        }
        let off = offsets_get(&self.offsets, self.types[i].id()).unwrap();
        let r = copy_out(&self.data, off + size * j, size);
        proof {
            assert(r@.len() == size);
        }
        r
    }

    /// Writes the bytes of the value of column `i` at slot `j`.
    fn write_cell(&mut self, i: usize, j: usize, bytes: &[u8])
        requires
            old(self).wf(),
            i < old(self).type_seq().len(),
            j < old(self).capacity(),
            bytes@.len() == old(self).size_of_column(i as int),
        ensures
            final(self).wf(),
            final(self).type_seq() == old(self).type_seq(),
            final(self).len_spec() == old(self).len_spec(),
            final(self).entity_ids() == old(self).entity_ids(),
            final(self).value(i as int, j as int) == bytes@,
            forall|k: int, m: int|
                0 <= k < old(self).type_seq().len() && 0 <= m < old(self).capacity() && (k != i
                    || m != j) ==> #[trigger] final(self).value(k, m) == old(self).value(k, m),
    {
        let size = self.types[i].layout().size();
        let ghost ls = self.layouts();
        let _total = self.data.len();
        proof {
            assert(self.offsets@.contains_key(self.types@[i as int].id_spec()));
            assert(ls[i as int] == self.types@[i as int].layout_spec());
            lemma_cell_in_column(ls, self.capacity() as int, i as int, j as int);
        }
        let off = offsets_get(&self.offsets, self.types[i].id()).unwrap();
        let at = off + size * j;
        let ghost d0 = self.data@;
        copy_in(&mut self.data, at, bytes);
        proof {
            lemma_write_cell(d0, self.data@, ls, self.capacity() as int, i as int, j as int, bytes@);
        }
    }

    /// The bytes of the value of the type identified by `id` at slot `index`.
    pub fn get(&self, id: u64, index: u32) -> (r: Vec<u8>)
        requires
            self.wf(),
            self.has_type(id),
            index < self.len_spec(),
        ensures
            r@ == self.value(self.column_of(id), index as int),
    {
        let i = self.find(id).unwrap();
        self.read_cell(i, index as usize)
    }

    /// Reads out the value of the type identified by `id` at slot `index`,
    /// ahead of a move to an archetype that lacks that type.
    pub fn read(&mut self, id: u64, index: u32) -> (r: Vec<u8>)
        requires
            old(self).wf(),
            old(self).has_type(id),
            index < old(self).len_spec(),
        ensures
            *final(self) == *old(self),
            r@ == old(self).value(old(self).column_of(id), index as int),
    {
        self.get(id, index)
    }

    /// Writes `component` as the value of the type identified by `id` at slot
    /// `index`.
    pub fn put(&mut self, component: &[u8], id: u64, index: u32)
        requires
            old(self).wf(),
            old(self).has_type(id),
            index < old(self).len_spec(),
            component@.len() == old(self).size_of_column(old(self).column_of(id)),
        ensures
            final(self).wf(),
            final(self).type_seq() == old(self).type_seq(),
            final(self).len_spec() == old(self).len_spec(),
            final(self).entity_ids() == old(self).entity_ids(),
            final(self).value(old(self).column_of(id), index as int) == component@,
            forall|k: int, m: int|
                0 <= k < old(self).type_seq().len() && 0 <= m < old(self).capacity() && (k
                    != old(self).column_of(id) || m != index) ==> #[trigger] final(self).value(k, m)
                    == old(self).value(k, m),
    {
        let i = self.find(id).unwrap();
        self.write_cell(i, index as usize, component);
    }

    /// Writes the `layout.size()` bytes of `component` as the value of the type
    /// identified by `ty` at slot `index`.
    pub fn put_dynamic(&mut self, component: &[u8], ty: u64, layout: Layout, index: u32)
        requires
            old(self).wf(),
            old(self).has_type(ty),
            index < old(self).len_spec(),
            layout.size_spec() == old(self).size_of_column(old(self).column_of(ty)),
            component@.len() == layout.size_spec(),
        ensures
            final(self).wf(),
            final(self).type_seq() == old(self).type_seq(),
            final(self).len_spec() == old(self).len_spec(),
            final(self).entity_ids() == old(self).entity_ids(),
            final(self).value(old(self).column_of(ty), index as int) == component@,
            forall|k: int, m: int|
                0 <= k < old(self).type_seq().len() && 0 <= m < old(self).capacity() && (k
                    != old(self).column_of(ty) || m != index) ==> #[trigger] final(self).value(k, m)
                    == old(self).value(k, m),
    {
        self.put(component, ty, index);
    }

    /// `self` is `before` with slot `index` swap-removed: the last live slot's
    /// entity and values now stand at `index`, and every other live slot is as
    /// it was.
    pub open spec fn swap_removed(&self, before: &Archetype, index: int) -> bool {
        &&& self.wf()
        &&& self.type_seq() == before.type_seq()
        &&& self.capacity() == before.capacity()
        &&& self.len_spec() + 1 == before.len_spec()
        &&& forall|j: int|
            0 <= j < self.len_spec() && j != index ==> #[trigger] self.entity_ids()[j]
                == before.entity_ids()[j]
        &&& forall|k: int, j: int|
            0 <= k < self.type_seq().len() && 0 <= j < self.len_spec() && j != index
                ==> #[trigger] self.value(k, j) == before.value(k, j)
        &&& index < self.len_spec() ==> {
            &&& self.entity_ids()[index] == before.entity_ids()[self.len_spec() as int]
            &&& forall|k: int|
                0 <= k < self.type_seq().len() ==> #[trigger] self.value(k, index) == before.value(
                    k,
                    self.len_spec() as int,
                )
        }
    }

    proof fn lemma_column_of(&self, i: int)
        requires
            self.wf(),
            0 <= i < self.type_seq().len(),
        ensures
            self.has_type(self.type_seq()[i].id_spec()),
            self.column_of(self.type_seq()[i].id_spec()) == i,
    {
        let id = self.type_seq()[i].id_spec();
        assert(self.type_seq()[i].id_spec() == id);
        let c = self.column_of(id);
        if c != i {
            assert(self.types@[c].id_spec() != self.types@[i].id_spec());
        }
    }

    /// Moves the last live slot's entity and values into slot `index`, and
    /// shrinks the live count by one. Values are moved as bytes.
    fn compact(&mut self, index: u32) -> (r: Option<u32>)
        requires
            old(self).wf(),
            index < old(self).len_spec(),
        ensures
            final(self).swap_removed(old(self), index as int),
            index + 1 < old(self).len_spec() ==> r == Some(
                old(self).entity_ids()[old(self).len_spec() - 1],
            ),
            index + 1 == old(self).len_spec() ==> r is None,
    {
        let last = self.len - 1;
        let mut i: usize = 0;
        while i < self.types.len()
            invariant
                self.wf(),
                i <= self.type_seq().len(),
                self.type_seq() == old(self).type_seq(),
                self.len_spec() == old(self).len_spec(),
                self.entity_ids() == old(self).entity_ids(),
                index < self.len_spec(),
                last + 1 == self.len_spec(),
                forall|k: int|
                    0 <= k < i && index != last ==> #[trigger] self.value(k, index as int)
                        == old(self).value(k, last as int),
                forall|k: int, m: int|
                    0 <= k < self.type_seq().len() && 0 <= m < self.capacity() && !(k < i && m
                        == index && index != last) ==> #[trigger] self.value(k, m) == old(
                        self,
                    ).value(k, m),
            decreases self.type_seq().len() - i,
        {
            if index != last {
                let moved = self.read_cell(i, last as usize);
                self.write_cell(i, index as usize, moved.as_slice());
            }
            i = i + 1;
        }
        let ghost mid = *self;
        self.len = last;
        proof {
            assert(self.bytes() == mid.bytes());
            assert(self.capacity() == old(self).capacity());
            assert(forall|k: int, j: int| 0 <= k < self.type_seq().len() && 0 <= j < self.capacity()
                ==> #[trigger] self.value(k, j) == mid.value(k, j));
        }
        if index != last {
            let e = self.entities[last as usize];
            self.entities.set(index as usize, e);
            proof {
                assert(self.capacity() == old(self).capacity());
                assert(self.wf());
                assert(forall|k: int, j: int| 0 <= k < self.type_seq().len() && 0 <= j < self.capacity()
                    ==> #[trigger] self.value(k, j) == mid.value(k, j));
                assert(self.entity_ids()[index as int] == old(self).entity_ids()[self.len_spec() as int]);
                assert(forall|j: int|
                    0 <= j < self.len_spec() && j != index ==> #[trigger] self.entity_ids()[j]
                        == old(self).entity_ids()[j]);
                assert(forall|k: int|
                    0 <= k < self.type_seq().len() ==> #[trigger] self.value(k, index as int) == old(self).value(
                        k,
                        self.len_spec() as int,
                    ));
            }
            Some(e)
        } else {
            proof {
                assert(self.wf());
                assert(forall|k: int, j: int|
                    0 <= k < self.type_seq().len() && 0 <= j < self.len_spec() && j != index
                        ==> #[trigger] self.value(k, j) == old(self).value(k, j));
            }
            None
        }
    }

    /// Appends a slot for entity `id` and returns its index. Every column's
    /// value at that slot is to be written right after. When storage is full
    /// it grows to the next capacity, keeping every live value at its slot.
    pub fn allocate(&mut self, id: u32) -> (r: u32)
        requires
            old(self).wf(),
            old(self).can_allocate(),
        ensures
            final(self).allocated(old(self), id, r),
    {
        if (self.len as usize) < self.entities.len() {
            let ghost mid = *self;
            self.entities.set(self.len as usize, id);
            self.len = self.len + 1;
            proof {
                assert(forall|k: int, j: int| 0 <= k < self.type_seq().len() && 0 <= j < self.capacity()
                    ==> #[trigger] self.value(k, j) == mid.value(k, j));
            }
            return self.len - 1;
        }
        let old_cap = self.entities.len();
        let count: usize = if old_cap == 0 {
            64
        } else {
            old_cap * 2
        };
        let mut entities: Vec<u32> = Vec::new();
        let mut j: usize = 0;
        while j < count
            invariant
                j <= count,
                old_cap == self.entities@.len(),
                entities@.len() == j,
                forall|m: int| 0 <= m < j && m < old_cap ==> #[trigger] entities@[m] == self.entities@[m],
            decreases count - j,
        {
            if j < old_cap {
                entities.push(self.entities[j]);
            } else {
                entities.push(u32::MAX);
            }
            j = j + 1;
        }
        let types = copy_types(&self.types);
        let (offsets, size) = compute_offsets(&types, count);
        let mut data: Vec<u8> = Vec::new();
        let mut p: usize = 0;
        while p < size
            invariant
                p <= size,
                data@.len() == p,
            decreases size - p,
        {
            data.push(0);
            p = p + 1;
        }
        let mut grown = Archetype { types, offsets, len: self.len, entities, data };
        let n = self.types.len();
        let mut i: usize = 0;
        while i < n
            invariant
                self.wf(),
                *self == *old(self),
                n == self.type_seq().len(),
                i <= n,
                grown.wf(),
                grown.type_seq() == self.type_seq(),
                grown.len_spec() == self.len_spec(),
                grown.capacity() == count,
                count >= self.capacity(),
                forall|m: int| 0 <= m < self.len_spec() ==> #[trigger] grown.entity_ids()[m] == self.entity_ids()[m],
                forall|k: int, m: int|
                    0 <= k < i && 0 <= m < self.len_spec() ==> #[trigger] grown.value(k, m) == self.value(k, m),
            decreases n - i,
        {
            let mut j: usize = 0;
            while j < self.len as usize
                invariant
                    self.wf(),
                    *self == *old(self),
                    n == self.type_seq().len(),
                    i < n,
                    j <= self.len_spec(),
                    grown.wf(),
                    grown.type_seq() == self.type_seq(),
                    grown.len_spec() == self.len_spec(),
                    grown.capacity() == count,
                    count >= self.capacity(),
                    forall|m: int| 0 <= m < self.len_spec() ==> #[trigger] grown.entity_ids()[m] == self.entity_ids()[m],
                    forall|k: int, m: int|
                        0 <= k < i && 0 <= m < self.len_spec() ==> #[trigger] grown.value(k, m) == self.value(k, m),
                    forall|m: int| 0 <= m < j ==> #[trigger] grown.value(i as int, m) == self.value(i as int, m),
                decreases self.len_spec() - j,
            {
                let moved = self.read_cell(i, j);
                grown.write_cell(i, j, moved.as_slice());
                j = j + 1;
            }
            i = i + 1;
        }
        let ghost mid = grown;
        grown.entities.set(grown.len as usize, id);
        grown.len = grown.len + 1;
        proof {
            assert(forall|k: int, j: int| 0 <= k < grown.type_seq().len() && 0 <= j < grown.capacity()
                ==> #[trigger] grown.value(k, j) == mid.value(k, j));
        }
        *self = grown;
        self.len - 1
    }

    /// `self` is `before` with a slot `index` appended for entity `id`: every
    /// earlier entity and value is kept, and capacity grows to the next one
    /// only when `before` was full.
    pub open spec fn allocated(&self, before: &Archetype, id: u32, index: u32) -> bool {
        &&& self.wf()
        &&& index == before.len_spec()
        &&& self.len_spec() == before.len_spec() + 1
        &&& self.type_seq() == before.type_seq()
        &&& self.entity_ids()[index as int] == id
        &&& before.len_spec() < before.capacity() ==> self.capacity() == before.capacity()
        &&& before.len_spec() == before.capacity() ==> self.capacity() == next_capacity(
            before.capacity(),
        )
        &&& forall|j: int|
            0 <= j < before.len_spec() ==> #[trigger] self.entity_ids()[j] == before.entity_ids()[j]
        &&& forall|k: int, j: int|
            0 <= k < before.type_seq().len() && 0 <= j < before.len_spec()
                ==> #[trigger] self.value(k, j) == before.value(k, j)
    }

    /// Appends a slot for entity `id` as [`Archetype::allocate`] does, or
    /// returns `None`, changing nothing, when the count or the grown storage
    /// would not fit.
    pub fn try_allocate(&mut self, id: u32) -> (r: Option<u32>)
        requires
            old(self).wf(),
        ensures
            r is Some <==> old(self).can_allocate(),
            r is None ==> *final(self) == *old(self),
            r matches Some(i) ==> final(self).allocated(old(self), id, i),
    {
        if self.len == u32::MAX {
            return None;
        }
        let cap = self.entities.len();
        if (self.len as usize) == cap {
            let next: usize = if cap == 0 {
                64
            } else {
                match cap.checked_mul(2) {
                    Some(c) => c,
                    None => return None,
                }
            };
            if !check_fits(&self.types, next) {
                return None;
            }
        }
        Some(self.allocate(id))
    }

    /// Removes the entity at slot `index` by swap-remove. Returns the
    /// identifier of the entity moved into `index`, or `None` if `index` was
    /// the last live slot.
    pub fn remove(&mut self, index: u32) -> (r: Option<u32>)
        requires
            old(self).wf(),
            index < old(self).len_spec(),
        ensures
            final(self).swap_removed(old(self), index as int),
            index + 1 < old(self).len_spec() ==> r == Some(
                old(self).entity_ids()[old(self).len_spec() - 1],
            ),
            index + 1 == old(self).len_spec() ==> r is None,
    {
        self.compact(index)
    }

    /// Copies, as bytes, each value at slot `index` whose type `target` also
    /// holds into `target`'s slot `target_index`, then swap-removes `index`.
    /// Values of types that `target` lacks are left behind.
    pub fn move_to(&mut self, index: u32, target: &mut Archetype, target_index: u32)
        requires
            old(self).wf(),
            old(target).wf(),
            index < old(self).len_spec(),
            target_index < old(target).len_spec(),
            layouts_agree(old(self).type_seq(), old(target).type_seq()),
        ensures
            final(self).swap_removed(old(self), index as int),
            final(target).wf(),
            final(target).type_seq() == old(target).type_seq(),
            final(target).len_spec() == old(target).len_spec(),
            final(target).entity_ids() == old(target).entity_ids(),
            forall|k: int|
                0 <= k < old(target).type_seq().len() ==> #[trigger] final(target).value(
                    k,
                    target_index as int,
                ) == if old(self).has_type(old(target).type_seq()[k].id_spec()) {
                    old(self).value(
                        old(self).column_of(old(target).type_seq()[k].id_spec()),
                        index as int,
                    )
                } else {
                    old(target).value(k, target_index as int)
                },
            forall|k: int, m: int|
                0 <= k < old(target).type_seq().len() && 0 <= m < old(target).capacity() && m
                    != target_index ==> #[trigger] final(target).value(k, m) == old(target).value(
                    k,
                    m,
                ),
    {
        let mut i: usize = 0;
        while i < self.types.len()
            invariant
                *self == *old(self),
                self.wf(),
                i <= self.type_seq().len(),
                target.wf(),
                target.type_seq() == old(target).type_seq(),
                target.len_spec() == old(target).len_spec(),
                target.entity_ids() == old(target).entity_ids(),
                target_index < target.len_spec(),
                index < self.len_spec(),
                layouts_agree(self.type_seq(), target.type_seq()),
                forall|k: int|
                    0 <= k < target.type_seq().len() ==> #[trigger] target.value(
                        k,
                        target_index as int,
                    ) == if self.has_type(target.type_seq()[k].id_spec()) && self.column_of(
                        target.type_seq()[k].id_spec(),
                    ) < i {
                        self.value(self.column_of(target.type_seq()[k].id_spec()), index as int)
                    } else {
                        old(target).value(k, target_index as int)
                    },
                forall|k: int, m: int|
                    0 <= k < target.type_seq().len() && 0 <= m < target.capacity() && m
                        != target_index ==> #[trigger] target.value(k, m) == old(target).value(
                        k,
                        m,
                    ),
            decreases self.type_seq().len() - i,
        {
            let id = self.types[i].id();
            match target.find(id) {
                Some(k) => {
                    let moved = self.read_cell(i, index as usize);
                    proof {
                        self.lemma_column_of(i as int);
                        target.lemma_column_of(k as int);
                        assert(self.type_seq()[i as int].id_spec() == target.type_seq()[k as int].id_spec());
                        assert(self.layouts()[i as int] == self.type_seq()[i as int].layout_spec());
                    }
                    let ghost t0 = *target;
                    target.write_cell(k, target_index as usize, moved.as_slice());
                    proof {
                        assert forall|k2: int| 0 <= k2 < target.type_seq().len() implies #[trigger] target.value(
                            k2,
                            target_index as int,
                        ) == if self.has_type(target.type_seq()[k2].id_spec()) && self.column_of(
                            target.type_seq()[k2].id_spec(),
                        ) < i + 1 {
                            self.value(self.column_of(target.type_seq()[k2].id_spec()), index as int)
                        } else {
                            old(target).value(k2, target_index as int)
                        } by {
                            if k2 != k {
                                assert(t0.value(k2, target_index as int) == target.value(k2, target_index as int));
                                target.lemma_column_of(k2);
                                if self.has_type(target.type_seq()[k2].id_spec()) {
                                    let c = self.column_of(target.type_seq()[k2].id_spec());
                                    self.lemma_column_of(c);
                                }
                            }
                        }
                    }
                },
                None => {
                    proof {
                        self.lemma_column_of(i as int);
                        assert forall|k2: int| 0 <= k2 < target.type_seq().len() implies #[trigger] target.value(
                            k2,
                            target_index as int,
                        ) == if self.has_type(target.type_seq()[k2].id_spec()) && self.column_of(
                            target.type_seq()[k2].id_spec(),
                        ) < i + 1 {
                            self.value(self.column_of(target.type_seq()[k2].id_spec()), index as int)
                        } else {
                            old(target).value(k2, target_index as int)
                        } by {
                            assert(target.type_seq()[k2].id_spec() != id);
                        }
                    }
                },
            }
            i = i + 1;
        }
        self.compact(index);
    }
}

/// The values of one entity, still resident at slot `index` of the archetype
/// it was taken from, ready to be moved into another archetype once.
pub struct EntityComponentSet {
    types: Vec<TypeInfo>,
    index: u32,
}

impl Archetype {
    /// The values of the entity at slot `index`, to be moved elsewhere.
    pub fn move_component_set(&self, index: u32) -> (r: EntityComponentSet)
        ensures
            r.info_spec() == self.type_seq(),
            r.index_spec() == index,
    {
        EntityComponentSet { types: copy_types(&self.types), index }
    }
}

impl EntityComponentSet {
    pub closed spec fn info_spec(&self) -> Seq<TypeInfo> {
        self.types@
    }

    pub closed spec fn index_spec(&self) -> u32 {
        self.index
    }

    /// The identifiers of the entity's component types.
    pub fn elements(&self) -> (r: Vec<u64>)
        ensures
            r@.len() == self.info_spec().len(),
            forall|i: int| 0 <= i < r@.len() ==> #[trigger] r@[i] == self.info_spec()[i].id_spec(),
    {
        let mut r: Vec<u64> = Vec::new();
        let mut i: usize = 0;
        while i < self.types.len()
            invariant
                i <= self.types@.len(),
                r@.len() == i,
                forall|k: int| 0 <= k < i ==> #[trigger] r@[k] == self.types@[k].id_spec(),
            decreases self.types@.len() - i,
        {
            r.push(self.types[i].id());
            i = i + 1;
        }
        r
    }

    /// The descriptors of the entity's component types.
    pub fn info(&self) -> (r: Vec<TypeInfo>)
        ensures
            r@ == self.info_spec(),
    {
        copy_types(&self.types)
    }

    /// Moves the entity out of `source`, where the set was taken, into slot
    /// `index` of `archetype`: see [`Archetype::move_to`].
    pub fn store(self, source: &mut Archetype, archetype: &mut Archetype, index: u32)
        requires
            old(source).wf(),
            old(archetype).wf(),
            old(source).type_seq() == self.info_spec(),
            self.index_spec() < old(source).len_spec(),
            index < old(archetype).len_spec(),
            layouts_agree(old(source).type_seq(), old(archetype).type_seq()),
        ensures
            final(source).swap_removed(old(source), self.index_spec() as int),
            final(archetype).wf(),
            final(archetype).type_seq() == old(archetype).type_seq(),
            final(archetype).len_spec() == old(archetype).len_spec(),
            final(archetype).entity_ids() == old(archetype).entity_ids(),
            forall|k: int|
                0 <= k < old(archetype).type_seq().len() ==> #[trigger] final(archetype).value(
                    k,
                    index as int,
                ) == if old(source).has_type(old(archetype).type_seq()[k].id_spec()) {
                    old(source).value(
                        old(source).column_of(old(archetype).type_seq()[k].id_spec()),
                        self.index_spec() as int,
                    )
                } else {
                    old(archetype).value(k, index as int)
                },
            forall|k: int, m: int|
                0 <= k < old(archetype).type_seq().len() && 0 <= m < old(archetype).capacity() && m
                    != index ==> #[trigger] final(archetype).value(k, m) == old(archetype).value(
                    k,
                    m,
                ),
    {
        source.move_to(self.index, archetype, index);
    }
}

/// Every column starts at an offset that is a multiple of its type's
/// alignment, whatever the capacity.
pub proof fn lemma_columns_aligned(a: &Archetype, i: int)
    requires
        a.wf(),
        0 <= i < a.type_seq().len(),
    ensures
        a.column_offset(i) % (a.type_seq()[i].layout_spec().align_spec() as int) == 0,
{
    a.lemma_wf();
    lemma_columns_ordered(a.layouts(), a.capacity() as int, i, i);
    assert(a.layouts()[i] == a.type_seq()[i].layout_spec());
}

/// Removing entities one at a time, each by swap-remove, as many times as
/// there were live entities, leaves the archetype with none, and each step
/// keeps it well formed.
pub proof fn lemma_remove_all_empties(states: Seq<Archetype>, indices: Seq<int>)
    requires
        states.len() >= 1,
        states[0].wf(),
        states.len() == states[0].len_spec() + 1,
        indices.len() + 1 == states.len(),
        forall|t: int|
            0 <= t < indices.len() ==> 0 <= #[trigger] indices[t] < states[t].len_spec()
                && states[t + 1].swap_removed(&states[t], indices[t]),
    ensures
        states.last().len_spec() == 0,
        states.last().wf(),
        forall|t: int| 0 <= t < states.len() ==> #[trigger] states[t].len_spec() + t == states[0].len_spec(),
{
    assert forall|t: int| 0 <= t < states.len() implies #[trigger] states[t].len_spec() + t
        == states[0].len_spec() && states[t].wf() by {
        lemma_remove_steps(states, indices, t);
    }
    lemma_remove_steps(states, indices, states.len() - 1);
    assert(states.last() == states[states.len() - 1]);
}

proof fn lemma_remove_steps(states: Seq<Archetype>, indices: Seq<int>, t: int)
    requires
        states.len() >= 1,
        states[0].wf(),
        indices.len() + 1 == states.len(),
        forall|u: int|
            0 <= u < indices.len() ==> 0 <= #[trigger] indices[u] < states[u].len_spec()
                && states[u + 1].swap_removed(&states[u], indices[u]),
        0 <= t < states.len(),
    ensures
        states[t].len_spec() + t == states[0].len_spec(),
        states[t].wf(),
    decreases t,
{
    if t > 0 {
        lemma_remove_steps(states, indices, t - 1);
        assert(0 <= indices[t - 1] < states[t - 1].len_spec());
    }
}

/// Whether every alignment is a power of two and no two descriptors share an
/// identifier.
fn check_types(types: &Vec<TypeInfo>) -> (r: bool)
    ensures
        r == types_valid(types@),
{
    let n = types.len();
    let mut i: usize = 0;
    while i < n
        invariant
            n == types@.len(),
            i <= n,
            forall|k: int| 0 <= k < i ==> (#[trigger] layouts_of(types@)[k]).valid(),
            forall|k: int, m: int|
                0 <= k < i && 0 <= m < n && k != m ==> #[trigger] types@[k].id_spec()
                    != #[trigger] types@[m].id_spec(),
        decreases n - i,
    {
        if !crate::layout::is_power_of_two(types[i].layout().align()) {
            proof {
                assert(!layouts_of(types@)[i as int].valid());
            }
            return false;
        }
        let mut j: usize = 0;
        while j < n
            invariant
                n == types@.len(),
                i < n,
                j <= n,
                forall|m: int| 0 <= m < j && m != i ==> #[trigger] types@[m].id_spec() != types@[i as int].id_spec(),
            decreases n - j,
        {
            if j != i && types[j].id() == types[i].id() {
                proof {
                    assert(types@[i as int].id_spec() == types@[j as int].id_spec());
                }
                return false;
            }
            j = j + 1;
        }
        i = i + 1;
    }
    true
}

/// Whether storage for `cap` values per column of these types fits in memory.
fn check_fits(types: &Vec<TypeInfo>, cap: usize) -> (r: bool)
    requires
        types_valid(types@),
    ensures
        r == layout_fits(types@, cap as int),
{
    let ghost ls = layouts_of(types@);
    let n = types.len();
    let mut size: usize = 0;
    let mut i: usize = 0;
    while i < n
        invariant
            n == types@.len(),
            i <= n,
            ls == layouts_of(types@),
            types_valid(types@),
            size == columns_end(ls, cap as int, i as int),
            forall|k: int|
                0 <= k < i ==> columns_end(ls, cap as int, k) + (
                #[trigger] types@[k]).layout_spec().align_spec() - 1 <= usize::MAX,
        decreases n - i,
    {
        let l = types[i].layout();
        let a = l.align();
        proof {
            assert(ls[i as int] == types@[i as int].layout_spec());
            assert(ls[i as int].valid());
            lemma_align_positive(ls, i as int);
            lemma_columns_ordered(ls, cap as int, 0, i as int);
            lemma_columns_ordered(ls, cap as int, i + 1, n as int);
        }
        if size > usize::MAX - (a - 1) {
            return false;
        }
        let start = align(size, a);
        match l.size().checked_mul(cap) {
            None => {
                return false;
            },
            Some(p) => match start.checked_add(p) {
                None => {
                    return false;
                },
                Some(end) => {
                    size = end;
                },
            },
        }
        i = i + 1;
    }
    true
}

/// A copy of a list of descriptors.
fn copy_types(types: &Vec<TypeInfo>) -> (r: Vec<TypeInfo>)
    ensures
        r@ == types@,
{
    let mut r: Vec<TypeInfo> = Vec::new();
    let mut i: usize = 0;
    while i < types.len()
        invariant
            i <= types@.len(),
            r@ == types@.subrange(0, i as int),
        decreases types@.len() - i,
    {
        r.push(types[i]);
        i = i + 1;
        proof {
            assert(r@ =~= types@.subrange(0, i as int));
        }
    }
    proof {
        assert(r@ =~= types@);
    }
    r
}

/// Types that two archetypes share have the same size in both.
pub open spec fn layouts_agree(a: Seq<TypeInfo>, b: Seq<TypeInfo>) -> bool {
    forall|i: int, k: int|
        0 <= i < a.len() && 0 <= k < b.len() && #[trigger] a[i].id_spec() == #[trigger] b[k].id_spec()
            ==> a[i].layout_spec().size_spec() == b[k].layout_spec().size_spec()
}

proof fn lemma_columns_zero(ls: Seq<Layout>, n: int)
    requires
        layouts_valid(ls),
        0 <= n <= ls.len(),
    ensures
        columns_end(ls, 0, n) == 0,
    decreases n,
{
    if n > 0 {
        lemma_columns_zero(ls, n - 1);
        lemma_align_positive(ls, n - 1);
        assert(ls[n - 1].size_spec() * 0 == 0);
    }
}

} // verus!
