//! The address book: a memory manager that is built once, over a backing
//! memory that it alone holds, and the books that it opens, one for each
//! virtual memory.

use vstd::prelude::*;
use vstd::seq_lib::seq_to_set_is_finite;
use vstd::utf8::encode_utf8;
use crate::codec::{
    encodable, lemma_decode_encode, parse_record, record_bytes, stamped, Address, AddressInput,
    AddressView, Principal, StoreError,
};
use crate::tree::{
    backing_bytes, backing_grow, backing_new, backing_pages, backing_read, backing_size,
    lemma_bytes_before_irreflexive, manager_get, manager_init, manager_into_backing,
    manager_loadable, name_before, region_read, region_size, tree_entries, tree_get, tree_id,
    tree_init, tree_insert, tree_keys, tree_len, tree_loadable, tree_remove, Backing, Manager,
    Tree,
};

verus! {

/// The number of virtual memories that a manager offers unless told otherwise.
pub const MAX_MEMORY_IDS: u8 = 255;

/// What a lookup of `key` gives where the stored bytes are `raw`: nothing
/// for a key that is not there, the record that its bytes are the layout of,
/// or `DecodeError` where they are the layout of none.
pub open spec fn found(raw: Map<Seq<char>, Seq<u8>>, key: Seq<char>) -> Result<
    Option<AddressView>,
    StoreError,
> {
    if !raw.contains_key(key) {
        Ok(None)
    } else {
        match parse_record(raw[key]) {
            Some(v) => Ok(Some(v)),
            None => Err(StoreError::DecodeError),
        }
    }
}

/// The stored bytes after `v` was written under `key`.
pub open spec fn stored(raw: Map<Seq<char>, Seq<u8>>, key: Seq<char>, v: AddressView) -> Map<
    Seq<char>,
    Seq<u8>,
> {
    raw.insert(key, record_bytes(v))
}

/// The stored bytes after `key` was taken out.
pub open spec fn erased(raw: Map<Seq<char>, Seq<u8>>, key: Seq<char>) -> Map<Seq<char>, Seq<u8>> {
    raw.remove(key)
}

/// The records that can be read from the stored bytes `raw`.
pub open spec fn readable(raw: Map<Seq<char>, Seq<u8>>) -> Map<Seq<char>, AddressView> {
    Map::new(
        |k: Seq<char>| raw.contains_key(k) && parse_record(raw[k]).is_some(),
        |k: Seq<char>| parse_record(raw[k]).unwrap(),
    )
}

/// The names of a list, as mathematical values.
pub open spec fn views(names: Seq<String>) -> Seq<Seq<char>> {
    names.map_values(|s: String| s@)
}

/// Names in ascending order are all different, and as many as the set that
/// they make up.
pub proof fn lemma_ascending_names(names: Seq<Seq<char>>)
    requires
        forall|i: int, j: int|
            0 <= i < j < names.len() ==> name_before(#[trigger] names[i], #[trigger] names[j]),
    ensures
        names.no_duplicates(),
        names.to_set().finite(),
        names.to_set().len() == names.len(),
{
    assert forall|i: int, j: int|
        0 <= i < names.len() && 0 <= j < names.len() && i != j implies names[i] != names[j] by {
        lemma_bytes_before_irreflexive(encode_utf8(names[i]));
        if i < j {
            assert(name_before(names[i], names[j]));
        } else {
            assert(name_before(names[j], names[i]));
        }
    }
    names.unique_seq_to_set();
    seq_to_set_is_finite(names);
}

/// Whether every name's bytes are a record's layout: no lookup fails.
pub open spec fn intact(raw: Map<Seq<char>, Seq<u8>>) -> bool {
    forall|k: Seq<char>| raw.contains_key(k) ==> parse_record(#[trigger] raw[k]).is_some()
}

/// Whether an executable lookup result is the one that `found` names.
pub open spec fn agrees(
    got: Result<Option<Address>, StoreError>,
    expected: Result<Option<AddressView>, StoreError>,
) -> bool {
    match got {
        Ok(Some(address)) => expected == Ok::<Option<AddressView>, StoreError>(Some(address@)),
        Ok(None) => expected == Ok::<Option<AddressView>, StoreError>(None),
        Err(e) => expected == Err::<Option<AddressView>, StoreError>(e),
    }
}

/// A record that was written under a key is what a lookup of that key gives,
/// and lookups of other keys give what they gave before.
pub proof fn law_get_after_insert(
    raw: Map<Seq<char>, Seq<u8>>,
    key: Seq<char>,
    v: AddressView,
    other: Seq<char>,
)
    requires
        encodable(v),
    ensures
        found(stored(raw, key, v), key) == Ok::<Option<AddressView>, StoreError>(Some(v)),
        other != key ==> found(stored(raw, key, v), other) == found(raw, other),
        readable(stored(raw, key, v)) == readable(raw).insert(key, v),
{
    lemma_decode_encode(v);
    assert(readable(stored(raw, key, v)) =~= readable(raw).insert(key, v));
}

/// A key that was taken out is not found, and lookups of other keys give
/// what they gave before.
pub proof fn law_get_after_remove(raw: Map<Seq<char>, Seq<u8>>, key: Seq<char>, other: Seq<char>)
    ensures
        found(erased(raw, key), key) == Ok::<Option<AddressView>, StoreError>(None),
        other != key ==> found(erased(raw, key), other) == found(raw, other),
        readable(erased(raw, key)) == readable(raw).remove(key),
{
    assert(readable(erased(raw, key)) =~= readable(raw).remove(key));
}

/// Writing twice under one key: the second write finds the first record
/// there, a lookup then gives the second, and nothing is left of the first.
pub proof fn law_insert_overwrite(
    raw: Map<Seq<char>, Seq<u8>>,
    key: Seq<char>,
    first: AddressView,
    second: AddressView,
)
    requires
        encodable(first),
        encodable(second),
    ensures
        found(stored(raw, key, first), key) == Ok::<Option<AddressView>, StoreError>(Some(first)),
        found(stored(stored(raw, key, first), key, second), key) == Ok::<
            Option<AddressView>,
            StoreError,
        >(Some(second)),
        stored(stored(raw, key, first), key, second) == stored(raw, key, second),
{
    lemma_decode_encode(first);
    lemma_decode_encode(second);
    assert(stored(stored(raw, key, first), key, second) =~= stored(raw, key, second));
}

/// A book that holds nothing is intact, and writing a record or taking a
/// name out leaves an intact book intact: stored bytes become unreadable
/// only by a change of layout, never by the book's own operations.
pub proof fn law_intact_is_kept(raw: Map<Seq<char>, Seq<u8>>, key: Seq<char>, v: AddressView)
    requires
        intact(raw),
        encodable(v),
    ensures
        intact(Map::<Seq<char>, Seq<u8>>::empty()),
        intact(stored(raw, key, v)),
        intact(erased(raw, key)),
        readable(raw).dom() == raw.dom(),
{
    lemma_decode_encode(v);
    assert forall|k: Seq<char>| stored(raw, key, v).contains_key(k) implies parse_record(
        #[trigger] stored(raw, key, v)[k],
    ).is_some() by {
        if k != key {
            assert(raw.contains_key(k));
            assert(stored(raw, key, v)[k] == raw[k]);
        }
    }
    assert forall|k: Seq<char>| erased(raw, key).contains_key(k) implies parse_record(
        #[trigger] erased(raw, key)[k],
    ).is_some() by {
        assert(raw.contains_key(k));
        assert(erased(raw, key)[k] == raw[k]);
    }
    assert(readable(raw).dom() =~= raw.dom());
}

/// The memory manager over the backing memory. It is built once, and opens
/// at most one book over each virtual memory.
pub struct Storage {
    manager: Manager,
    limit: u8,
    opened: Vec<u8>,
}

/// An address book over one virtual memory.
pub struct AddressBook {
    tree: Tree,
    blank: bool,
}

impl Storage {
    /// The number of virtual memories on offer: the ids below it are valid.
    pub closed spec fn limit(&self) -> u8 {
        self.limit
    }

    /// Whether a book was opened over the virtual memory `id`.
    pub closed spec fn is_open(&self, id: u8) -> bool {
        self.opened@.contains(id)
    }

    /// A manager over the default backing memory, built here, that offers
    /// `MAX_MEMORY_IDS` virtual memories. It is built once for the life of
    /// the process: where the default memory is the one stable memory of the
    /// machine, a second manager would share it with the first.
    pub fn init() -> (made: Result<Storage, StoreError>)
        ensures
            match made {
                Ok(storage) => storage.limit() == MAX_MEMORY_IDS && forall|id: u8|
                    !storage.is_open(id),
                Err(e) => e == StoreError::OutOfSpace || e == StoreError::DecodeError,
            },
    {
        Storage::init_with_limit(MAX_MEMORY_IDS)
    }

    /// A manager over the default backing memory, built here, that offers
    /// the virtual memories below `limit`.
    pub fn init_with_limit(limit: u8) -> (made: Result<Storage, StoreError>)
        ensures
            match made {
                Ok(storage) => storage.limit() == limit && forall|id: u8| !storage.is_open(id),
                Err(e) => e == StoreError::OutOfSpace || e == StoreError::DecodeError,
            },
    {
        Storage::init_over(backing_new(), limit)
    }

    /// A manager over `backing`. Where the memory holds a manager's layout,
    /// the virtual memories are those it describes; a blank memory is given
    /// its first page and a new layout.
    ///
    /// `OutOfSpace` where the memory is blank and cannot grow; `DecodeError`
    /// where it holds a manager's layout of a version that cannot be loaded.
    pub fn init_over(backing: Backing, limit: u8) -> (made: Result<Storage, StoreError>)
        ensures
            match made {
                Ok(storage) => storage.limit() == limit && forall|id: u8| !storage.is_open(id),
                Err(e) => if backing_pages(backing) == 0 {
                    e == StoreError::OutOfSpace
                } else {
                    e == StoreError::DecodeError
                },
            },
            backing_pages(backing) >= 1 ==> made.is_ok() == manager_loadable(
                backing_bytes(backing, 0, 4),
            ),
    {
        let mut backing = backing;
        if backing_size(&backing) == 0 {
            if backing_grow(&mut backing, 1) == -1 {
                return Err(StoreError::OutOfSpace);
            }
        }
        let head = backing_read(&backing, 0, 4);
        if !manager_header_known(head.as_slice()) {
            return Err(StoreError::DecodeError);
        }
        Ok(Storage { manager: manager_init(backing), limit, opened: Vec::new() })
    }

    /// Gives up the manager for its backing memory, from which it can be
    /// built again as after a restart. Nothing where a book of this manager
    /// is still alive.
    pub fn into_backing(self) -> (backing: Option<Backing>) {
        manager_into_backing(self.manager)
    }

    /// Whether a book was opened over the virtual memory `id`.
    pub fn has_open(&self, id: u8) -> (open: bool)
        ensures
            open == self.is_open(id),
    {
        let mut i: usize = 0;
        while i < self.opened.len()
            invariant
                i <= self.opened@.len(),
                forall|j: int| 0 <= j < i ==> self.opened@[j] != id,
            decreases self.opened@.len() - i,
        {
            if self.opened[i] == id {
                return true;
            }
            i += 1;
        }
        false
    }

    /// Opens the book that the virtual memory `id` holds, an empty one where
    /// the memory is blank. `InvalidMemoryId` where `id` is not below the
    /// limit; `DecodeError` where the memory holds a map's layout of a
    /// version that cannot be loaded.
    ///
    /// A book owns its virtual memory: no second one is opened over it.
    pub fn open(&mut self, id: u8) -> (opened: Result<AddressBook, StoreError>)
        requires
            !old(self).is_open(id),
        ensures
            final(self).limit() == old(self).limit(),
            id >= old(self).limit() ==> opened == Err::<AddressBook, StoreError>(
                StoreError::InvalidMemoryId,
            ),
            match opened {
                Ok(book) => {
                    &&& id < old(self).limit()
                    &&& book.memory_id() == id
                    &&& book.opened_blank() ==> book.raw() == Map::<Seq<char>, Seq<u8>>::empty()
                },
                Err(e) => if id >= old(self).limit() {
                    e == StoreError::InvalidMemoryId
                } else {
                    e == StoreError::DecodeError
                },
            },
            forall|other: u8|
                final(self).is_open(other) == (old(self).is_open(other) || (other == id
                    && opened.is_ok())),
    {
        if id >= self.limit {
            return Err(StoreError::InvalidMemoryId);
        }
        let region = manager_get(&self.manager, id);
        let blank = region_size(&region) == 0;
        if !blank {
            let head = region_read(&region, 0, 56);
            if !tree_header_known(head.as_slice()) {
                return Err(StoreError::DecodeError);
            }
        }
        self.opened.push(id);
        proof {
            let before = old(self).opened@;
            assert(self.opened@ == before.push(id));
            assert(self.opened@[before.len() as int] == id);
            assert forall|other: u8|
                self.opened@.contains(other) == (before.contains(other) || other == id) by {
                if before.contains(other) {
                    let j = choose|j: int| 0 <= j < before.len() && before[j] == other;
                    assert(self.opened@[j] == other);
                }
            }
        }
        Ok(AddressBook { tree: tree_init(region), blank })
    }
}

/// Whether a manager can be made over a memory that starts with `head`.
pub fn manager_header_known(head: &[u8]) -> (known: bool)
    ensures
        known == manager_loadable(head@),
{
    if head.len() != 4 {
        return false;
    }
    !(head[0] == 77 && head[1] == 71 && head[2] == 82) || head[3] == 1
}

/// Whether a map can be made over a virtual memory that starts with `head`.
pub fn tree_header_known(head: &[u8]) -> (known: bool)
    ensures
        known == tree_loadable(head@),
{
    if head.len() != 56 {
        return false;
    }
    if !(head[0] == 66 && head[1] == 84 && head[2] == 82) {
        return true;
    }
    (head[3] == 1 || head[3] == 2) && head[52] == 66 && head[53] == 84 && head[54] == 65
        && head[55] == 1
}

impl View for AddressBook {
    type V = Map<Seq<char>, AddressView>;

    /// The records that can be read from the book.
    open spec fn view(&self) -> Map<Seq<char>, AddressView> {
        readable(self.raw())
    }
}

impl AddressBook {
    /// The bytes that the book stores under each name.
    pub closed spec fn raw(&self) -> Map<Seq<char>, Seq<u8>> {
        tree_entries(self.tree)
    }

    /// The id of the virtual memory that holds the book.
    pub closed spec fn memory_id(&self) -> u8 {
        tree_id(self.tree)
    }

    /// Whether the virtual memory was blank when the book was opened: the
    /// book was empty then.
    pub closed spec fn opened_blank(&self) -> bool {
        self.blank
    }

    /// Whether the virtual memory was blank when the book was opened.
    pub fn was_blank(&self) -> (blank: bool)
        ensures
            blank == self.opened_blank(),
    {
        self.blank
    }

    /// The record stored under `name`, nothing where there is none, and
    /// `DecodeError` where the stored bytes are no record's layout.
    pub fn get_address(&self, name: String) -> (got: Result<Option<Address>, StoreError>)
        ensures
            agrees(got, found(self.raw(), name@)),
    {
        match tree_get(&self.tree, &name) {
            None => Ok(None),
            Some(bytes) => match Address::from_bytes(bytes.as_slice()) {
                Ok(address) => Ok(Some(address)),
                Err(e) => Err(e),
            },
        }
    }

    /// Stores `address` under `name`, in place of what was there, and returns
    /// what was there. Where the bytes that were there are no record's
    /// layout, the call fails with `DecodeError` and the book is unchanged.
    pub fn insert(&mut self, name: String, address: Address) -> (previous: Result<
        Option<Address>,
        StoreError,
    >)
        ensures
            final(self).memory_id() == old(self).memory_id(),
            final(self).opened_blank() == old(self).opened_blank(),
            agrees(previous, found(old(self).raw(), name@)),
            previous.is_ok() ==> final(self).raw() == stored(old(self).raw(), name@, address@),
            previous.is_ok() ==> final(self)@ == old(self)@.insert(name@, address@),
            previous.is_ok() ==> found(final(self).raw(), name@) == Ok::<
                Option<AddressView>,
                StoreError,
            >(Some(address@)),
            previous.is_err() ==> final(self).raw() == old(self).raw(),
    {
        let previous = self.get_address(name.clone());
        if previous.is_ok() {
            let bytes = address.to_bytes();
            proof {
                law_get_after_insert(self.raw(), name@, address@, name@);
            }
            let _ = tree_insert(&mut self.tree, name, bytes);
        }
        previous
    }

    /// Stores under `name` the record made of `input` and of `caller`, who
    /// writes it, in place of what was there. Where the bytes that were there
    /// are no record's layout, the call fails with `DecodeError` and the book
    /// is unchanged.
    pub fn set_address(&mut self, name: String, input: AddressInput, caller: Principal) -> (done:
        Result<(), StoreError>)
        ensures
            final(self).memory_id() == old(self).memory_id(),
            final(self).opened_blank() == old(self).opened_blank(),
            done.is_ok() == found(old(self).raw(), name@).is_ok(),
            done.is_err() ==> done == Err::<(), StoreError>(StoreError::DecodeError),
            done.is_ok() ==> final(self).raw() == stored(
                old(self).raw(),
                name@,
                stamped(input, caller),
            ),
            done.is_ok() ==> final(self)@ == old(self)@.insert(name@, stamped(input, caller)),
            done.is_ok() ==> found(final(self).raw(), name@) == Ok::<
                Option<AddressView>,
                StoreError,
            >(Some(stamped(input, caller))),
            done.is_err() ==> final(self).raw() == old(self).raw(),
    {
        let address = Address {
            street: input.street,
            city: input.city,
            state: input.state,
            zip: input.zip,
            created_by: caller,
        };
        match self.insert(name, address) {
            Ok(_) => Ok(()),
            Err(e) => Err(e),
        }
    }

    /// Takes out what is stored under `name`, and returns it. Where the
    /// stored bytes are no record's layout, the call fails with `DecodeError`
    /// and the book is unchanged.
    pub fn remove(&mut self, name: String) -> (previous: Result<Option<Address>, StoreError>)
        ensures
            final(self).memory_id() == old(self).memory_id(),
            final(self).opened_blank() == old(self).opened_blank(),
            agrees(previous, found(old(self).raw(), name@)),
            previous.is_ok() ==> final(self).raw() == erased(old(self).raw(), name@),
            previous.is_ok() ==> final(self)@ == old(self)@.remove(name@),
            previous.is_ok() ==> found(final(self).raw(), name@) == Ok::<
                Option<AddressView>,
                StoreError,
            >(None),
            previous.is_err() ==> final(self).raw() == old(self).raw(),
    {
        let previous = self.get_address(name.clone());
        if previous.is_ok() {
            proof {
                law_get_after_remove(self.raw(), name@, name@);
            }
            let _ = tree_remove(&mut self.tree, &name);
        }
        previous
    }

    /// The number of names in the book.
    pub fn len(&self) -> (count: u64)
        ensures
            count == self.raw().dom().len(),
    {
        tree_len(&self.tree)
    }

    /// The names in the book, each once, in ascending order of their bytes.
    pub fn names(&self) -> (names: Vec<String>)
        ensures
            forall|i: int, j: int|
                0 <= i < j < names@.len() ==> name_before(
                    #[trigger] names@[i]@,
                    #[trigger] names@[j]@,
                ),
            forall|i: int| 0 <= i < names@.len() ==> self.raw().contains_key(#[trigger] names@[i]@),
            forall|k: Seq<char>|
                self.raw().contains_key(k) ==> exists|i: int|
                    0 <= i < names@.len() && #[trigger] names@[i]@ == k,
            views(names@).no_duplicates(),
            views(names@).to_set() == self.raw().dom(),
            self.raw().dom().finite() && names@.len() == self.raw().dom().len(),
    {
        let names = tree_keys(&self.tree);
        proof {
            let listed = views(names@);
            assert forall|i: int, j: int| 0 <= i < j < listed.len() implies name_before(
                #[trigger] listed[i],
                #[trigger] listed[j],
            ) by {
                assert(name_before(names@[i]@, names@[j]@));
            }
            lemma_ascending_names(listed);
            assert forall|k: Seq<char>| listed.to_set().contains(k) == self.raw().dom().contains(
                k,
            ) by {
                if listed.contains(k) {
                    let i = choose|i: int| 0 <= i < listed.len() && listed[i] == k;
                    assert(self.raw().contains_key(names@[i]@));
                }
                if self.raw().contains_key(k) {
                    let i = choose|i: int| 0 <= i < names@.len() && #[trigger] names@[i]@ == k;
                    assert(listed[i] == k);
                }
            }
            assert(listed.to_set() =~= self.raw().dom());
        }
        names
    }

    /// The book's entries, each name once, in ascending order of the names'
    /// bytes: a fresh scan from the start at every call. Where the bytes
    /// stored under some name are no record's layout, `DecodeError`.
    pub fn entries(&self) -> (listed: Result<Vec<(String, Address)>, StoreError>)
        ensures
            listed.is_ok() == intact(self.raw()),
            match listed {
                Ok(pairs) => {
                    &&& forall|i: int, j: int|
                        0 <= i < j < pairs@.len() ==> name_before(
                            #[trigger] pairs@[i].0@,
                            #[trigger] pairs@[j].0@,
                        )
                    &&& forall|i: int|
                        0 <= i < pairs@.len() ==> found(self.raw(), #[trigger] pairs@[i].0@) == Ok::<
                            Option<AddressView>,
                            StoreError,
                        >(Some(pairs@[i].1@))
                    &&& forall|k: Seq<char>|
                        self.raw().contains_key(k) ==> exists|i: int|
                            0 <= i < pairs@.len() && #[trigger] pairs@[i].0@ == k
                },
                Err(e) => e == StoreError::DecodeError && exists|k: Seq<char>|
                    self.raw().contains_key(k) && parse_record(#[trigger] self.raw()[k]).is_none(),
            },
    {
        let names = tree_keys(&self.tree);
        let mut pairs: Vec<(String, Address)> = Vec::new();
        let mut i: usize = 0;
        while i < names.len()
            invariant
                i <= names@.len(),
                pairs@.len() == i,
                forall|j: int| 0 <= j < names@.len() ==> self.raw().contains_key(#[trigger] names@[j]@),
                forall|j: int| 0 <= j < i ==> (#[trigger] pairs@[j]).0@ == names@[j]@,
                forall|j: int|
                    0 <= j < i ==> found(self.raw(), names@[j]@) == Ok::<
                        Option<AddressView>,
                        StoreError,
                    >(Some((#[trigger] pairs@[j]).1@)),
            decreases names@.len() - i,
        {
            let name = names[i].clone();
            match self.get_address(names[i].clone()) {
                Ok(Some(address)) => {
                    pairs.push((name, address));
                },
                Ok(None) => {
                    assert(self.raw().contains_key(names@[i as int]@));
                    assert(false);
                },
                Err(e) => {
                    assert(self.raw().contains_key(names@[i as int]@));
                    assert(parse_record(self.raw()[names@[i as int]@]).is_none());
                    return Err(e);
                },
            }
            i += 1;
        }
        proof {
            assert forall|k: Seq<char>| self.raw().contains_key(k) implies exists|i: int|
                0 <= i < pairs@.len() && #[trigger] pairs@[i].0@ == k by {
                let j = choose|j: int| 0 <= j < names@.len() && #[trigger] names@[j]@ == k;
                assert(pairs@[j].0@ == k);
            }
        }
        Ok(pairs)
    }
}

} // verus!
