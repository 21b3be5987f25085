//! The ordered persistent map that backs the address book, and the memory
//! manager that hands it its virtual memory.
//!
//! What is said here of the stable-structures crate is stated, not proved:
//! the rest of the library is proved from these statements.

use vstd::prelude::*;
use vstd::utf8::encode_utf8;
use ic_stable_structures::memory_manager::{MemoryId, MemoryManager, VirtualMemory};
use ic_stable_structures::{DefaultMemoryImpl, Memory, StableBTreeMap};

verus! {

/// The default backing memory, held by one handle that nobody else keeps.
#[verifier::external_body]
pub struct Backing {
    inner: DefaultMemoryImpl,
}

/// A `MemoryManager` over the default backing memory.
#[verifier::external_body]
pub struct Manager {
    inner: MemoryManager<DefaultMemoryImpl>,
}

/// A `VirtualMemory` of such a manager.
#[verifier::external_body]
pub struct Region {
    inner: VirtualMemory<DefaultMemoryImpl>,
}

/// A `StableBTreeMap` from names to encoded records, stored in one virtual
/// memory.
#[verifier::external_body]
pub struct Tree {
    inner: StableBTreeMap<String, Vec<u8>, VirtualMemory<DefaultMemoryImpl>>,
}

/// The entries of an empty map.
pub open spec fn no_entries() -> Map<Seq<char>, Seq<u8>> {
    Map::empty()
}

/// The size of a backing memory, in pages of 65536 bytes.
pub uninterp spec fn backing_pages(backing: Backing) -> u64;

/// The `count` bytes that a backing memory holds from `offset` on.
pub uninterp spec fn backing_bytes(backing: Backing, offset: u64, count: usize) -> Seq<u8>;

/// The size of a virtual memory, in pages of 65536 bytes.
pub uninterp spec fn region_pages(region: Region) -> u64;

/// The `count` bytes that a virtual memory holds from `offset` on.
pub uninterp spec fn region_bytes(region: Region, offset: u64, count: usize) -> Seq<u8>;

/// The id of a virtual memory.
pub uninterp spec fn region_id(region: Region) -> u8;

/// The id of the virtual memory that a map is stored in.
pub uninterp spec fn tree_id(tree: Tree) -> u8;

/// Whether a manager can be made over a memory that starts with these four
/// bytes: they are not a manager's mark (`MGR`), or the layout version that
/// follows the mark is 1, the one that can be loaded.
pub open spec fn manager_loadable(head: Seq<u8>) -> bool {
    &&& head.len() == 4
    &&& (!(head[0] == 77 && head[1] == 71 && head[2] == 82) || head[3] == 1)
}

/// Whether a map can be made over a virtual memory that starts with these 56
/// bytes: they are not a map's mark (`BTR`), or the map's layout version is
/// 1 or 2 and its allocator's header, at byte 52, carries the allocator's
/// mark (`BTA`) and version 1.
pub open spec fn tree_loadable(head: Seq<u8>) -> bool {
    &&& head.len() == 56
    &&& (!(head[0] == 66 && head[1] == 84 && head[2] == 82) || {
        &&& (head[3] == 1 || head[3] == 2)
        &&& head[52] == 66
        &&& head[53] == 84
        &&& head[54] == 65
        &&& head[55] == 1
    })
}

/// What a map holds: for each key, by its characters, the bytes stored under it.
pub uninterp spec fn tree_entries(tree: Tree) -> Map<Seq<char>, Seq<u8>>;

/// Whether `a` comes before `b` when both are compared byte by byte, a proper
/// prefix before what extends it.
pub open spec fn bytes_before(a: Seq<u8>, b: Seq<u8>) -> bool
    decreases a.len(),
{
    if b.len() == 0 {
        false
    } else if a.len() == 0 {
        true
    } else if a[0] != b[0] {
        a[0] < b[0]
    } else {
        bytes_before(a.drop_first(), b.drop_first())
    }
}

/// The order of names: that of their UTF-8 bytes.
pub open spec fn name_before(a: Seq<char>, b: Seq<char>) -> bool {
    bytes_before(encode_utf8(a), encode_utf8(b))
}

/// Nothing comes before itself, so names in ascending order are all
/// different.
pub proof fn lemma_bytes_before_irreflexive(a: Seq<u8>)
    ensures
        !bytes_before(a, a),
    decreases a.len(),
{
    if a.len() > 0 {
        lemma_bytes_before_irreflexive(a.drop_first());
    }
}

/// `DefaultMemoryImpl::default`: the default backing memory. Nothing is
/// claimed of what it holds.
#[verifier::external_body]
pub(crate) fn backing_new() -> (backing: Backing) {
    Backing { inner: DefaultMemoryImpl::default() }
}

/// `Memory::size` of the backing memory: its size in pages.
#[verifier::external_body]
pub(crate) fn backing_size(backing: &Backing) -> (pages: u64)
    ensures
        pages == backing_pages(*backing),
{
    backing.inner.size()
}

/// `Memory::grow` of the backing memory: -1 where it cannot grow by `pages`
/// pages, and then it is as before; else its size before, and the new pages
/// hold zeroes.
#[verifier::external_body]
pub(crate) fn backing_grow(backing: &mut Backing, pages: u64) -> (previous: i64)
    ensures
        previous == -1 ==> backing_pages(*final(backing)) == backing_pages(*old(backing)),
        previous != -1 ==> backing_pages(*final(backing)) == backing_pages(*old(backing)) + pages,
        previous != -1 && backing_pages(*old(backing)) == 0 ==> forall|count: usize|
            count <= pages * 65536 ==> #[trigger] backing_bytes(*final(backing), 0, count)
                == Seq::new(count as nat, |i: int| 0u8),
{
    backing.inner.grow(pages)
}

/// `Memory::read` of the backing memory: `count` bytes from `offset` on.
/// The call stops on a read beyond the memory's size, which is left out.
#[verifier::external_body]
pub(crate) fn backing_read(backing: &Backing, offset: u64, count: usize) -> (bytes: Vec<u8>)
    requires
        offset + count <= backing_pages(*backing) * 65536,
    ensures
        bytes@ == backing_bytes(*backing, offset, count),
        bytes@.len() == count,
{
    let mut bytes = vec![0u8; count];
    backing.inner.read(offset, &mut bytes);
    bytes
}

/// `MemoryManager::init`: a manager over `backing`. It loads the manager
/// that the memory holds where the memory starts with a manager's mark, and
/// stops on a layout version that it does not know, which is left out; else
/// it writes a new one into the first page, which must be there, since the
/// call stops where the memory cannot grow.
#[verifier::external_body]
pub(crate) fn manager_init(backing: Backing) -> (manager: Manager)
    requires
        backing_pages(backing) >= 1,
        manager_loadable(backing_bytes(backing, 0, 4)),
{
    Manager { inner: MemoryManager::init(backing.inner) }
}

/// `MemoryManager::into_memory`: the backing memory, where no virtual memory
/// of the manager is alive any more, and nothing else.
#[verifier::external_body]
pub(crate) fn manager_into_backing(manager: Manager) -> (backing: Option<Backing>) {
    match manager.inner.into_memory() {
        Some(inner) => Some(Backing { inner }),
        None => None,
    }
}

/// `MemoryManager::get`: the virtual memory with this id. `MemoryId::new`
/// stops on the id that marks an unallocated bucket, 255, which is left out.
#[verifier::external_body]
pub(crate) fn manager_get(manager: &Manager, id: u8) -> (region: Region)
    requires
        id != 255,
    ensures
        region_id(region) == id,
{
    Region { inner: manager.inner.get(MemoryId::new(id)) }
}

/// `Memory::size` of a virtual memory: its size in pages.
#[verifier::external_body]
pub(crate) fn region_size(region: &Region) -> (pages: u64)
    ensures
        pages == region_pages(*region),
{
    region.inner.size()
}

/// `Memory::read` of a virtual memory: `count` bytes from `offset` on. The
/// call stops on a read beyond the memory's size, which is left out.
#[verifier::external_body]
pub(crate) fn region_read(region: &Region, offset: u64, count: usize) -> (bytes: Vec<u8>)
    requires
        offset + count <= region_pages(*region) * 65536,
    ensures
        bytes@ == region_bytes(*region, offset, count),
        bytes@.len() == count,
{
    let mut bytes = vec![0u8; count];
    region.inner.read(offset, &mut bytes);
    bytes
}

/// `StableBTreeMap::init`: over a blank virtual memory, an empty map; over
/// one that starts with a map's mark, the map that it holds; else a new map.
/// The call stops on a map or allocator header that it does not know, which
/// is left out, and, like every write of the map, where the memory cannot
/// grow.
#[verifier::external_body]
pub(crate) fn tree_init(region: Region) -> (tree: Tree)
    requires
        region_pages(region) == 0 || tree_loadable(region_bytes(region, 0, 56)),
    ensures
        tree_id(tree) == region_id(region),
        region_pages(region) == 0 ==> tree_entries(tree) == no_entries(),
{
    Tree { inner: StableBTreeMap::init(region.inner) }
}

/// `StableBTreeMap::get`: the bytes stored under `key`, if any.
#[verifier::external_body]
pub(crate) fn tree_get(tree: &Tree, key: &String) -> (found: Option<Vec<u8>>)
    ensures
        match found {
            Some(bytes) => tree_entries(*tree).contains_key(key@) && tree_entries(*tree)[key@]
                == bytes@,
            None => !tree_entries(*tree).contains_key(key@),
        },
{
    tree.inner.get(key)
}

/// `StableBTreeMap::insert`: stores `value` under `key`, in place of what
/// was there, and returns what was there. Where the memory cannot grow, the
/// call stops the process.
#[verifier::external_body]
pub(crate) fn tree_insert(tree: &mut Tree, key: String, value: Vec<u8>) -> (previous: Option<
    Vec<u8>,
>)
    ensures
        tree_entries(*final(tree)) == tree_entries(*old(tree)).insert(key@, value@),
        tree_id(*final(tree)) == tree_id(*old(tree)),
        match previous {
            Some(bytes) => tree_entries(*old(tree)).contains_key(key@) && tree_entries(
                *old(tree),
            )[key@] == bytes@,
            None => !tree_entries(*old(tree)).contains_key(key@),
        },
{
    tree.inner.insert(key, value)
}

/// `StableBTreeMap::remove`: takes out what is stored under `key`, and
/// returns it.
#[verifier::external_body]
pub(crate) fn tree_remove(tree: &mut Tree, key: &String) -> (previous: Option<Vec<u8>>)
    ensures
        tree_entries(*final(tree)) == tree_entries(*old(tree)).remove(key@),
        tree_id(*final(tree)) == tree_id(*old(tree)),
        match previous {
            Some(bytes) => tree_entries(*old(tree)).contains_key(key@) && tree_entries(
                *old(tree),
            )[key@] == bytes@,
            None => !tree_entries(*old(tree)).contains_key(key@),
        },
{
    tree.inner.remove(key)
}

/// `StableBTreeMap::len`: the number of keys.
#[verifier::external_body]
pub(crate) fn tree_len(tree: &Tree) -> (count: u64)
    ensures
        count == tree_entries(*tree).dom().len(),
{
    tree.inner.len()
}

/// `StableBTreeMap::keys`, collected: every key once, in ascending order.
#[verifier::external_body]
pub(crate) fn tree_keys(tree: &Tree) -> (keys: Vec<String>)
    ensures
        forall|i: int, j: int|
            0 <= i < j < keys@.len() ==> name_before(#[trigger] keys@[i]@, #[trigger] keys@[j]@),
        forall|i: int|
            0 <= i < keys@.len() ==> tree_entries(*tree).contains_key(#[trigger] keys@[i]@),
        forall|k: Seq<char>|
            tree_entries(*tree).contains_key(k) ==> exists|i: int|
                0 <= i < keys@.len() && #[trigger] keys@[i]@ == k,
{
    tree.inner.keys().collect()
}

} // verus!
