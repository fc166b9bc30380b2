use core::marker::PhantomData;
use vstd::prelude::*;
use vstd::slice::slice_subrange;
use vstd::string::StringExecFns;
use vstd::string::StringSliceAdditionalSpecFns;
use vstd::bytes::{
    lemma_auto_spec_u64_to_from_le_bytes, spec_u64_from_le_bytes, spec_u64_to_le_bytes,
    u64_from_le_bytes, u64_to_le_bytes,
};
use super::storable::Storable;
use super::tiny_string::{
    byte_len, copied_count, lemma_chars_le_bytes, same_as_str, samestr_overruns, TinyString,
    FIXED_CHAR_BUFFER_SIZE,
};

verus! {

/// How many named values a `GlobalStorage` can hold.
pub const NAME_SLOTS: usize = 100;

/// Something that keeps its contents as a sequence of bytes.
pub trait Storage {
    /// The bytes held.
    spec fn storage_bytes(&self) -> Seq<u8>;

    /// `self` and `other` agree on everything they hold besides the bytes.
    spec fn same_besides_bytes(&self, other: &Self) -> bool;

    /// The bytes, to be changed in place; nothing else changes.
    fn get_storage(&mut self) -> (bytes: &mut [u8])
        ensures
            bytes@ == old(self).storage_bytes(),
            final(self).storage_bytes() == final(bytes)@,
            final(self).same_besides_bytes(old(self)),
    ;

    /// The bytes, to be read.
    fn read_storage(&self) -> (bytes: &[u8])
        ensures
            bytes@ == self.storage_bytes(),
    ;
}

/// A typed position in a byte store: where a value starts and the tag of its type.
pub struct Ptr<S: Storage> {
    ptr: usize,
    type_hash: u64,
    backend_storage: PhantomData<S>,
}

impl<S: Storage> Ptr<S> {
    /// The index of the first byte of the value.
    pub closed spec fn offset(&self) -> nat {
        self.ptr as nat
    }

    /// The tag of the type of the value.
    pub closed spec fn tag(&self) -> u64 {
        self.type_hash
    }

    /// The value of type `T` whose bytes start at this position.
    pub fn deref_mut<T: Storable>(&self, storage: &S) -> (v: T)
        requires
            self.tag() == T::spec_type_tag(),
            self.offset() < storage.storage_bytes().len(),
            self.offset() + T::spec_size() <= storage.storage_bytes().len(),
        ensures
            v == T::spec_from_bytes(
                storage.storage_bytes().subrange(self.offset() as int, (self.offset() + T::spec_size()) as int),
            ),
    {
        let bytes = storage.read_storage();
        let size = T::byte_size();
        let n = bytes.len();
        assert(self.ptr + size <= n);
        let part = slice_subrange(bytes, self.ptr, self.ptr + size);
        T::from_bytes(part)
    }
}

impl<S: Storage> Ptr<S> {
    /// Replaces the value of type `T` whose bytes start at this position with `v`.
    pub fn set<T: Storable>(&self, storage: &mut S, v: T)
        requires
            self.tag() == T::spec_type_tag(),
            self.offset() + T::spec_size() <= old(storage).storage_bytes().len(),
        ensures
            final(storage).storage_bytes() == old(storage).storage_bytes().subrange(0, self.offset() as int)
                + v.spec_to_bytes() + old(storage).storage_bytes().subrange(
                (self.offset() + T::spec_size()) as int,
                old(storage).storage_bytes().len() as int,
            ),
            final(storage).same_besides_bytes(old(storage)),
    {
        let ghost b0 = old(storage).storage_bytes();
        let size = T::byte_size();
        let encoded = v.to_bytes();
        let bytes = storage.get_storage();
        let n = bytes.len();
        let at = self.ptr;
        let mut i: usize = 0;
        while i < size
            invariant
                size == T::spec_size(),
                encoded@ == v.spec_to_bytes(),
                encoded@.len() == size,
                at + size <= b0.len(),
                n == b0.len(),
                i <= size,
                bytes@.len() == b0.len(),
                forall|j: int| 0 <= j < b0.len() ==> #[trigger] bytes@[j]
                    == if at <= j < at + i { encoded@[j - at] } else { b0[j] },
            decreases size - i,
        {
            bytes[at + i] = encoded[i];
            i = i + 1;
        }
        assert(bytes@ =~= b0.subrange(0, at as int) + v.spec_to_bytes()
            + b0.subrange(at + T::spec_size(), b0.len() as int));
    }
}

impl<S: Storage> Clone for Ptr<S> {
    fn clone(&self) -> (p: Self)
        ensures
            p == *self,
    {
        Ptr { ptr: self.ptr, type_hash: self.type_hash, backend_storage: PhantomData }
    }
}

/// The index of the last of the first `n` name slots that holds `name`, or -1.
pub open spec fn last_match(names: Seq<TinyString>, name: &str, n: int) -> int
    decreases n,
{
    if n <= 0 {
        -1
    } else if same_as_str(names[n - 1], name) {
        n - 1
    } else {
        last_match(names, name, n - 1)
    }
}

/// Some name slot holds `name`.
pub open spec fn has_name(names: Seq<TinyString>, name: &str) -> bool {
    exists|i: int| 0 <= i < names.len() && #[trigger] same_as_str(names[i], name)
}

/// Comparing `name` with every slot, in order, runs off no slot.
pub open spec fn scan_ok(names: Seq<TinyString>, name: &str) -> bool {
    forall|i: int| 0 <= i < names.len() ==> !#[trigger] samestr_overruns(names[i], name)
}

/// Comparing `name` with the slots in order, stopping at the first match, runs off no slot.
pub open spec fn scan_to_first_ok(names: Seq<TinyString>, name: &str) -> bool {
    forall|i: int|
        0 <= i < names.len() && #[trigger] samestr_overruns(names[i], name) ==> exists|j: int|
            0 <= j < i && #[trigger] same_as_str(names[j], name)
}

/// `f` with the marks from `front` up to `back` cleared.
pub open spec fn unfill(f: Seq<bool>, front: int, back: int) -> Seq<bool> {
    Seq::new(f.len(), |j: int| if front <= j < back { false } else { f[j] })
}

/// `n` copies of `x`.
pub open spec fn repeat<A>(x: A, n: nat) -> Seq<A> {
    Seq::new(n, |i: int| x)
}

/// `after` is `before` with `v` appended to the bytes and a new entry for it,
/// named `name`, in the next slot.
pub open spec fn stored_as<T: Storable>(before: &GlobalStorage, after: &GlobalStorage, v: T, name: &str) -> bool {
    let n = before.entries().len() as int;
    &&& after.bytes() == before.bytes() + v.spec_to_bytes()
    &&& after.filled() == before.filled() + repeat(true, T::spec_size())
    &&& after.entries().len() == n + 1
    &&& after.entries().subrange(0, n) == before.entries()
    &&& after.entries()[n].offset() == before.bytes().len()
    &&& after.entries()[n].tag() == T::spec_type_tag()
    &&& after.names() == before.names().update(n, after.names()[n])
    &&& after.names()[n].cursor == name@.len()
    &&& after.names()[n]@ == name@
}

/// A byte arena: values are appended as bytes, and up to `NAME_SLOTS` of them can be
/// given a name. `storage_filled` marks the bytes that belong to a live value.
pub struct GlobalStorage {
    pub storage: Vec<u8>,
    pub storage_filled: Vec<bool>,
    reference: [TinyString; NAME_SLOTS],
    stored_ptr: Vec<Ptr<GlobalStorage>>,
}

impl Storage for GlobalStorage {
    open spec fn storage_bytes(&self) -> Seq<u8> {
        self.bytes()
    }

    /// The fill marks, the names and the entries agree.
    open spec fn same_besides_bytes(&self, other: &GlobalStorage) -> bool {
        &&& self.filled() == other.filled()
        &&& self.same_names(other)
    }

    fn get_storage(&mut self) -> (bytes: &mut [u8]) {
        self.storage.as_mut_slice()
    }

    fn read_storage(&self) -> (bytes: &[u8]) {
        self.storage.as_slice()
    }
}

impl GlobalStorage {
    /// The bytes of the arena.
    pub closed spec fn bytes(&self) -> Seq<u8> {
        self.storage@
    }

    /// Which bytes belong to a live value.
    pub closed spec fn filled(&self) -> Seq<bool> {
        self.storage_filled@
    }

    /// The name slots, in order; slot `i` names entry `i`.
    pub closed spec fn names(&self) -> Seq<TinyString> {
        self.reference@
    }

    /// The positions of the named values, in the order they were stored.
    pub closed spec fn entries(&self) -> Seq<Ptr<GlobalStorage>> {
        self.stored_ptr@
    }

    /// At most `NAME_SLOTS` entries, every name slot within its buffer, and the
    /// slots past the last entry empty.
    pub closed spec fn wf(&self) -> bool {
        &&& self.stored_ptr@.len() <= NAME_SLOTS
        &&& forall|i: int| 0 <= i < NAME_SLOTS ==> (#[trigger] self.reference@[i]).wf()
        &&& forall|i: int|
            self.stored_ptr@.len() <= i < NAME_SLOTS ==> (#[trigger] self.reference@[i]).cursor == 0
    }

    /// The names and entries of `self` and `other` are the same.
    pub open spec fn same_names(&self, other: &GlobalStorage) -> bool {
        &&& self.names() == other.names()
        &&& self.entries() == other.entries()
    }

    /// The slot that `get` reads for `name`: the last one that holds it, or -1.
    pub open spec fn lookup_index(&self, name: &str) -> int {
        last_match(self.names(), name, NAME_SLOTS as int)
    }

    /// `name` leads to an entry of type `T` whose bytes lie in the storage.
    pub open spec fn holds<T: Storable>(&self, name: &str) -> bool {
        let i = self.lookup_index(name);
        &&& 0 <= i < self.entries().len()
        &&& self.entries()[i].tag() == T::spec_type_tag()
        &&& self.entries()[i].offset() < self.bytes().len()
        &&& self.entries()[i].offset() + T::spec_size() <= self.bytes().len()
    }

    /// The value that the bytes of the entry named `name` encode.
    pub open spec fn value_of<T: Storable>(&self, name: &str) -> T {
        let p = self.entries()[self.lookup_index(name)].offset();
        T::spec_from_bytes(self.bytes().subrange(p as int, (p + T::spec_size()) as int))
    }

    /// Writing `size` bytes at `at` either is refused (at or past the end) or
    /// touches only bytes that exist and are marked filled.
    pub open spec fn write_ok(&self, at: nat, size: nat) -> bool {
        at >= self.bytes().len() || {
            &&& at + size <= self.bytes().len()
            &&& at + size <= self.filled().len()
            &&& forall|j: int| at <= j < at + size ==> #[trigger] self.filled()[j]
        }
    }

    pub fn new() -> (gs: GlobalStorage)
        ensures
            gs.wf(),
            gs.bytes() == Seq::<u8>::empty(),
            gs.filled() == Seq::<bool>::empty(),
            gs.entries().len() == 0,
            gs.names().len() == NAME_SLOTS,
            forall|i: int| 0 <= i < NAME_SLOTS ==> (#[trigger] gs.names()[i]).cursor == 0,
            forall|i: int| 0 <= i < NAME_SLOTS ==> (#[trigger] gs.names()[i])@ == Seq::<char>::empty(),
    {
        let gs = GlobalStorage {
            storage: Vec::with_capacity(1028 * 1028 * 4),
            storage_filled: Vec::with_capacity(1028 * 1028 * 4),
            reference: [TinyString::new(); NAME_SLOTS],
            stored_ptr: Vec::new(),
        };
        gs
    }

    /// Appends the bytes of `v` and returns where they start.
    pub fn allocate<T: Storable>(&mut self, v: T) -> (p: Ptr<GlobalStorage>)
        ensures
            final(self).bytes() == old(self).bytes() + v.spec_to_bytes(),
            final(self).filled() == old(self).filled() + repeat(true, T::spec_size()),
            p.offset() == old(self).bytes().len(),
            p.tag() == T::spec_type_tag(),
            final(self).same_names(old(self)),
            old(self).wf() ==> final(self).wf(),
    {
        let size = T::byte_size();
        let bytes = v.to_bytes();
        let cursor = self.storage.len();
        let mut i: usize = 0;
        while i < size
            invariant
                size == T::spec_size(),
                bytes@ == v.spec_to_bytes(),
                bytes@.len() == size,
                i <= size,
                self.bytes() == old(self).bytes() + bytes@.subrange(0, i as int),
                self.filled() == old(self).filled() + repeat(true, i as nat),
                self.reference == old(self).reference,
                self.stored_ptr == old(self).stored_ptr,
            decreases size - i,
        {
            self.storage.push(bytes[i]);
            self.storage_filled.push(true);
            i = i + 1;
            assert(self.bytes() =~= old(self).bytes() + bytes@.subrange(0, i as int));
            assert(self.filled() =~= old(self).filled() + repeat(true, i as nat));
        }
        assert(bytes@.subrange(0, size as int) =~= bytes@);
        Ptr { ptr: cursor, type_hash: T::type_tag(), backend_storage: PhantomData }
    }

    /// Appends room for `multiples` values of type `T`, zeroed, and returns where it starts.
    pub fn alloc_multi_empty<T: Storable>(&mut self, multiples: usize) -> (p: Ptr<GlobalStorage>)
        requires
            T::spec_size() * multiples <= usize::MAX,
        ensures
            final(self).bytes() == old(self).bytes() + repeat(0u8, (T::spec_size() * multiples) as nat),
            final(self).filled() == old(self).filled() + repeat(true, (T::spec_size() * multiples) as nat),
            p.offset() == old(self).bytes().len(),
            p.tag() == T::spec_type_tag(),
            final(self).same_names(old(self)),
            old(self).wf() ==> final(self).wf(),
    {
        let size = T::byte_size() * multiples;
        let cursor = self.storage.len();
        let mut i: usize = 0;
        while i < size
            invariant
                size == T::spec_size() * multiples,
                i <= size,
                self.bytes() == old(self).bytes() + repeat(0u8, i as nat),
                self.filled() == old(self).filled() + repeat(true, i as nat),
                self.reference == old(self).reference,
                self.stored_ptr == old(self).stored_ptr,
            decreases size - i,
        {
            self.storage.push(0);
            self.storage_filled.push(true);
            i = i + 1;
            assert(self.bytes() =~= old(self).bytes() + repeat(0u8, i as nat));
            assert(self.filled() =~= old(self).filled() + repeat(true, i as nat));
        }
        Ptr { ptr: cursor, type_hash: T::type_tag(), backend_storage: PhantomData }
    }

    /// Copies the bytes from the start of `ptr` up to index `index_back` to the end,
    /// marks the copied bytes as no longer filled, appends `additional_space` zero
    /// bytes, and returns where the copy starts.
    pub fn realloc<T>(&mut self, ptr: Ptr<GlobalStorage>, index_back: usize, additional_space: usize) -> (p: Ptr<GlobalStorage>)
        requires
            ptr.offset() >= index_back || (index_back <= old(self).bytes().len() && index_back <= old(self).filled().len()),
        ensures
            ({
                let front = ptr.offset() as int;
                let back = index_back as int;
                let moved = if front < back { old(self).bytes().subrange(front, back) } else { Seq::<u8>::empty() };
                &&& final(self).bytes() == old(self).bytes() + moved + repeat(0u8, additional_space as nat)
                &&& final(self).filled() == unfill(old(self).filled(), front, back)
                        + repeat(true, (moved.len() + additional_space) as nat)
            }),
            p.offset() == old(self).bytes().len(),
            p.tag() == ptr.tag(),
            final(self).same_names(old(self)),
            old(self).wf() ==> final(self).wf(),
    {
        let cursor = self.storage.len();
        let index_front = ptr.ptr;
        let ghost front = index_front as int;
        let ghost back = index_back as int;
        let ghost b0 = self.storage@;
        let ghost f0 = self.storage_filled@;
        let mut i = index_front;
        while i < index_back
            invariant
                front == index_front,
                back == index_back,
                front < back ==> {
                    &&& front <= i <= back
                    &&& back <= b0.len()
                    &&& back <= f0.len()
                    &&& self.storage@ == b0 + b0.subrange(front, i as int)
                    &&& self.storage_filled@ == unfill(f0, front, i as int) + repeat(true, (i - front) as nat)
                },
                front >= back ==> {
                    &&& i == front
                    &&& self.storage@ == b0
                    &&& self.storage_filled@ == f0
                },
                self.reference == old(self).reference,
                self.stored_ptr == old(self).stored_ptr,
            decreases index_back - i,
        {
            let temp = self.storage[i];
            self.storage_filled.set(i, false);
            self.storage.push(temp);
            self.storage_filled.push(true);
            i = i + 1;
            assert(self.storage@ =~= b0 + b0.subrange(front, i as int));
            assert(self.storage_filled@ =~= unfill(f0, front, i as int) + repeat(true, (i - front) as nat));
        }
        let ghost moved = if front < back { b0.subrange(front, back) } else { Seq::<u8>::empty() };
        proof {
            if front >= back {
                assert(b0 + moved =~= b0);
                assert(f0 =~= unfill(f0, front, back));
            }
            assert(self.storage@ =~= b0 + moved + repeat(0u8, 0));
            assert(self.storage_filled@ =~= unfill(f0, front, back)
                + repeat(true, (moved.len() + 0) as nat));
        }
        let mut k: usize = 0;
        while k < additional_space
            invariant
                k <= additional_space,
                self.storage@ == b0 + moved + repeat(0u8, k as nat),
                self.storage_filled@ == unfill(f0, front, back)
                    + repeat(true, (moved.len() + k) as nat),
                self.reference == old(self).reference,
                self.stored_ptr == old(self).stored_ptr,
            decreases additional_space - k,
        {
            self.storage.push(0);
            self.storage_filled.push(true);
            k = k + 1;
            assert(self.storage@ =~= b0 + moved + repeat(0u8, k as nat));
            assert(self.storage_filled@ =~= unfill(f0, front, back)
                + repeat(true, (moved.len() + k) as nat));
        }
        Ptr { ptr: cursor, type_hash: ptr.type_hash, backend_storage: PhantomData }
    }

    /// Overwrites the bytes at `at_index` with those of `v`, or fails when `at_index`
    /// lies past the end of the storage.
    pub fn write_to<T: Storable>(&mut self, v: T, at_index: usize) -> (r: Result<(), String>)
        requires
            old(self).write_ok(at_index as nat, T::spec_size()),
        ensures
            at_index >= old(self).bytes().len() ==> {
                &&& r is Err
                &&& r->Err_0@ == "Writing outside the bounds of memory allocated to global storage"@
                &&& *final(self) == *old(self)
            },
            at_index < old(self).bytes().len() ==> {
                &&& r is Ok
                &&& final(self).bytes() == old(self).bytes().subrange(0, at_index as int) + v.spec_to_bytes()
                    + old(self).bytes().subrange(at_index + T::spec_size(), old(self).bytes().len() as int)
                &&& final(self).filled() == old(self).filled()
                &&& final(self).same_names(old(self))
            },
            old(self).wf() ==> final(self).wf(),
    {
        let size = T::byte_size();
        let bytes = v.to_bytes();
        if at_index >= self.storage.len() {
            return Err(String::from_str("Writing outside the bounds of memory allocated to global storage"));
        }
        let ghost b0 = self.storage@;
        let len0 = self.storage.len();
        let cursor = at_index;
        let mut i: usize = 0;
        while i < size
            invariant
                size == T::spec_size(),
                bytes@ == v.spec_to_bytes(),
                bytes@.len() == size,
                cursor + size <= b0.len(),
                b0.len() == len0,
                i <= size,
                self.storage@.len() == b0.len(),
                forall|j: int| 0 <= j < b0.len() ==> #[trigger] self.storage@[j]
                    == if cursor <= j < cursor + i { bytes@[j - cursor] } else { b0[j] },
                self.storage_filled == old(self).storage_filled,
                self.reference == old(self).reference,
                self.stored_ptr == old(self).stored_ptr,
            decreases size - i,
        {
            self.storage.set(cursor + i, bytes[i]);
            i = i + 1;
        }
        assert(self.storage@ =~= b0.subrange(0, at_index as int) + v.spec_to_bytes()
            + b0.subrange(at_index + T::spec_size(), b0.len() as int));
        Ok(())
    }

    /// Stores `v` under `name`. Fails when `name` has more than
    /// `FIXED_CHAR_BUFFER_SIZE` bytes or a slot already holds it.
    pub fn store<T: Storable>(&mut self, v: T, name: &str) -> (r: Result<(), String>)
        requires
            old(self).wf(),
            byte_len(name) > FIXED_CHAR_BUFFER_SIZE || {
                &&& scan_to_first_ok(old(self).names(), name)
                &&& has_name(old(self).names(), name) || old(self).entries().len() < NAME_SLOTS
            },
        ensures
            final(self).wf(),
            byte_len(name) > FIXED_CHAR_BUFFER_SIZE ==> {
                &&& r is Err
                &&& r->Err_0@ == "storage name is too damn long"@
                &&& *final(self) == *old(self)
            },
            name@.len() == 0 ==> {
                &&& r is Err
                &&& r->Err_0@ == "Global Storage name collision: "@
                &&& *final(self) == *old(self)
            },
            byte_len(name) <= FIXED_CHAR_BUFFER_SIZE && has_name(old(self).names(), name) ==> {
                &&& r is Err
                &&& r->Err_0@ == "Global Storage name collision: "@ + name@
                &&& *final(self) == *old(self)
            },
            byte_len(name) <= FIXED_CHAR_BUFFER_SIZE && !has_name(old(self).names(), name) ==> {
                &&& r is Ok
                &&& stored_as(old(self), final(self), v, name)
            },
    {
        proof {
            lemma_chars_le_bytes(name@);
        }
        proof {
            if name@.len() == 0 {
                let n = old(self).entries().len() as int;
                assert(name.spec_bytes() =~= Seq::<u8>::empty());
                if n < NAME_SLOTS {
                    assert(old(self).names()[n]@ =~= name@);
                    assert(same_as_str(old(self).names()[n], name));
                }
                assert(has_name(old(self).names(), name));
                assert("Global Storage name collision: "@ + name@ =~= "Global Storage name collision: "@);
            }
        }
        let byte_count = name.as_bytes().len();
        if byte_count > FIXED_CHAR_BUFFER_SIZE {
            return Err(String::from_str("storage name is too damn long"));
        }
        let cursor = self.stored_ptr.len();
        let mut i: usize = 0;
        while i < NAME_SLOTS
            invariant
                i <= NAME_SLOTS,
                self.reference@.len() == NAME_SLOTS,
                scan_to_first_ok(self.reference@, name),
                *self == *old(self),
                self.wf(),
                forall|j: int| 0 <= j < i ==> !same_as_str(#[trigger] self.reference@[j], name),
            decreases NAME_SLOTS - i,
        {
            assert(!samestr_overruns(self.reference@[i as int], name));
            if self.reference[i].is_samestr(name) {
                let msg = String::from_str("Global Storage name collision: ").concat(name);
                return Err(msg);
            }
            i = i + 1;
        }
        assert(!has_name(old(self).names(), name));
        let ghost old_slot = self.reference@[cursor as int];
        let mut slot = self.reference[cursor];
        slot.copystr(name);
        assert(slot@ =~= name@);
        self.reference[cursor] = slot;
        let ptr = self.allocate(v);
        self.stored_ptr.push(ptr);
        assert(self.stored_ptr@.subrange(0, cursor as int) =~= old(self).stored_ptr@);
        assert(self.reference@ =~= old(self).reference@.update(cursor as int, slot));
        Ok(())
    }

    /// The last slot that holds `name`, if any.
    fn find_name(&self, name: &str) -> (r: Option<usize>)
        requires
            scan_ok(self.names(), name),
        ensures
            self.lookup_index(name) < 0 ==> r is None,
            self.lookup_index(name) >= 0 ==> r is Some && r->Some_0 as int == self.lookup_index(name),
    {
        let mut isgood = false;
        let mut ptr_index: usize = 0;
        let mut i: usize = 0;
        while i < NAME_SLOTS
            invariant
                i <= NAME_SLOTS,
                self.reference@.len() == NAME_SLOTS,
                scan_ok(self.reference@, name),
                isgood == (last_match(self.reference@, name, i as int) >= 0),
                isgood ==> ptr_index == last_match(self.reference@, name, i as int),
            decreases NAME_SLOTS - i,
        {
            assert(!samestr_overruns(self.reference@[i as int], name));
            if self.reference[i].is_samestr(name) {
                ptr_index = i;
                isgood = true;
            }
            i = i + 1;
        }
        if isgood {
            Some(ptr_index)
        } else {
            None
        }
    }

    /// Overwrites the bytes at `at` with those of `v`, whatever their fill marks.
    fn overwrite<T: Storable>(&mut self, v: T, at: usize)
        requires
            at + T::spec_size() <= old(self).bytes().len(),
        ensures
            final(self).bytes() == old(self).bytes().subrange(0, at as int) + v.spec_to_bytes()
                + old(self).bytes().subrange(at + T::spec_size(), old(self).bytes().len() as int),
            final(self).filled() == old(self).filled(),
            final(self).same_names(old(self)),
            old(self).wf() ==> final(self).wf(),
    {
        let size = T::byte_size();
        let bytes = v.to_bytes();
        let ghost b0 = self.storage@;
        let len0 = self.storage.len();
        let mut i: usize = 0;
        while i < size
            invariant
                size == T::spec_size(),
                bytes@ == v.spec_to_bytes(),
                bytes@.len() == size,
                at + size <= b0.len(),
                b0.len() == len0,
                i <= size,
                self.storage@.len() == b0.len(),
                forall|j: int| 0 <= j < b0.len() ==> #[trigger] self.storage@[j]
                    == if at <= j < at + i { bytes@[j - at] } else { b0[j] },
                self.storage_filled == old(self).storage_filled,
                self.reference == old(self).reference,
                self.stored_ptr == old(self).stored_ptr,
            decreases size - i,
        {
            self.storage.set(at + i, bytes[i]);
            i = i + 1;
        }
        assert(self.storage@ =~= b0.subrange(0, at as int) + v.spec_to_bytes()
            + b0.subrange(at + T::spec_size(), b0.len() as int));
    }

    /// Replaces the value stored under `name` with `v`, which has the same type.
    /// When several slots hold `name` the last one counts; fails when none does.
    pub fn set<T: Storable>(&mut self, v: T, name: &str) -> (r: Result<(), String>)
        requires
            scan_ok(old(self).names(), name),
            old(self).lookup_index(name) >= 0 ==> old(self).holds::<T>(name),
        ensures
            old(self).lookup_index(name) < 0 ==> {
                &&& r is Err
                &&& r->Err_0@ == "Name not found in Global Storage: "@ + name@
                &&& *final(self) == *old(self)
            },
            old(self).lookup_index(name) >= 0 ==> {
                let at = old(self).entries()[old(self).lookup_index(name)].offset() as int;
                &&& r is Ok
                &&& final(self).bytes() == old(self).bytes().subrange(0, at) + v.spec_to_bytes()
                    + old(self).bytes().subrange(at + T::spec_size(), old(self).bytes().len() as int)
                &&& final(self).filled() == old(self).filled()
                &&& final(self).same_names(old(self))
                &&& final(self).holds::<T>(name)
                &&& final(self).value_of::<T>(name) == v
            },
            old(self).wf() ==> final(self).wf(),
    {
        let ptr_index = match self.find_name(name) {
            Some(i) => i,
            None => {
                return Err(String::from_str("Name not found in Global Storage: ").concat(name));
            },
        };
        let at = self.stored_ptr[ptr_index].ptr;
        self.overwrite(v, at);
        proof {
            lemma_write_then_get(old(self), self, v, name);
        }
        Ok(())
    }

    /// The value of type `T` stored under `name`. When several slots hold `name`
    /// the last one counts; fails when none does.
    pub fn get<T: Storable>(&self, name: &str) -> (r: Result<T, String>)
        requires
            scan_ok(self.names(), name),
            self.lookup_index(name) >= 0 ==> self.holds::<T>(name),
        ensures
            self.lookup_index(name) < 0 ==> {
                &&& r is Err
                &&& r->Err_0@ == "Name not found in Global Storage: "@ + name@
            },
            self.lookup_index(name) >= 0 ==> r == Ok::<T, String>(self.value_of::<T>(name)),
    {
        let ptr_index = match self.find_name(name) {
            Some(i) => i,
            None => {
                return Err(String::from_str("Name not found in Global Storage: ").concat(name));
            },
        };
        let ptr = &self.stored_ptr[ptr_index];
        let size = T::byte_size();
        let bytes = self.storage.as_slice();
        let n = bytes.len();
        assert(ptr.ptr + size <= n);
        let part = slice_subrange(bytes, ptr.ptr, ptr.ptr + size);
        Ok(T::from_bytes(part))
    }
}

/// Per-panel state that lives as long as the panel.
pub struct LocalStorage {
    pub initialized: bool,
}

impl LocalStorage {
    pub fn new() -> (ls: LocalStorage)
        ensures
            !ls.initialized,
    {
        LocalStorage { initialized: false }
    }
}

/// `a` is a new empty array with room for `size` elements, placed at the end of
/// `before`, whose bytes `after` extends with zeros.
pub open spec fn made_with_capacity<T: Storable>(a: DyArray<T>, before: &GlobalStorage, after: &GlobalStorage, size: nat) -> bool {
    &&& a.start() == before.bytes().len()
    &&& a.count() == 0
    &&& a.cap() == size
    &&& a.elem_tag() == T::spec_type_tag()
    &&& after.bytes() == before.bytes() + repeat(0u8, (T::spec_size() * size) as nat)
    &&& after.filled() == before.filled() + repeat(true, (T::spec_size() * size) as nat)
    &&& after.same_names(before)
    &&& before.wf() ==> after.wf()
}

/// A growable array of `T` whose elements live in a `GlobalStorage`.
pub struct DyArray<T> {
    ptr: Ptr<GlobalStorage>,
    length: usize,
    capacity: usize,
    phantom: PhantomData<T>,
}

impl<T: Storable> DyArray<T> {
    /// Where the elements start in the storage.
    pub closed spec fn start(&self) -> nat {
        self.ptr.ptr as nat
    }

    /// The tag recorded for the element type.
    pub closed spec fn elem_tag(&self) -> u64 {
        self.ptr.type_hash
    }

    /// How many elements have been pushed.
    pub closed spec fn count(&self) -> nat {
        self.length as nat
    }

    /// How many elements fit in the room that was allocated.
    pub closed spec fn cap(&self) -> nat {
        self.capacity as nat
    }

    /// The index in the storage of the first byte of element `index`.
    pub open spec fn slot(&self, index: int) -> int {
        self.start() + index * T::spec_size()
    }

    /// The element at `index`, as the bytes of `gs` encode it.
    pub open spec fn element(&self, gs: &GlobalStorage, index: int) -> T {
        T::spec_from_bytes(gs.bytes().subrange(self.slot(index), self.slot(index) + T::spec_size()))
    }

    /// An empty array with room for five elements.
    pub fn new(gs: &mut GlobalStorage) -> (a: DyArray<T>)
        requires
            T::spec_size() * 5 <= usize::MAX,
        ensures
            made_with_capacity(a, old(gs), final(gs), 5),
    {
        DyArray::<T>::with_capacity(gs, 5)
    }

    /// An empty array with room for `size` elements, zeroed in `gs`.
    pub fn with_capacity(gs: &mut GlobalStorage, size: usize) -> (a: DyArray<T>)
        requires
            T::spec_size() * size <= usize::MAX,
        ensures
            made_with_capacity(a, old(gs), final(gs), size as nat),
    {
        let ptr = gs.alloc_multi_empty::<T>(size);
        DyArray { ptr: ptr, length: 0, capacity: size, phantom: PhantomData }
    }

    /// Writes `v` after the last element. When the array is full it instead copies
    /// its bytes to the end of `gs` and moves there, and `v` is not written.
    pub fn push(&mut self, gs: &mut GlobalStorage, v: T)
        requires
            old(self).count() >= old(self).cap() ==> {
                let back = old(self).count() * T::spec_size();
                &&& back <= usize::MAX
                &&& old(self).start() >= back || (back <= old(gs).bytes().len() && back <= old(gs).filled().len())
            },
            old(self).count() < old(self).cap() ==> {
                &&& old(self).slot(old(self).count() as int) <= usize::MAX
                &&& old(gs).write_ok(old(self).slot(old(self).count() as int) as nat, T::spec_size())
            },
        ensures
            old(self).count() >= old(self).cap() ==> {
                let front = old(self).start() as int;
                let back = (old(self).count() * T::spec_size()) as int;
                let moved = if front < back { old(gs).bytes().subrange(front, back) } else { Seq::<u8>::empty() };
                &&& final(self).start() == old(gs).bytes().len()
                &&& final(self).count() == old(self).count()
                &&& final(self).cap() == old(self).cap()
                &&& final(self).elem_tag() == old(self).elem_tag()
                &&& final(gs).bytes() == old(gs).bytes() + moved + repeat(0u8, old(self).cap())
                &&& final(gs).filled() == unfill(old(gs).filled(), front, back)
                    + repeat(true, (moved.len() + old(self).cap()) as nat)
            },
            old(self).count() < old(self).cap() ==> {
                let at = old(self).slot(old(self).count() as int);
                &&& final(self).start() == old(self).start()
                &&& final(self).count() == old(self).count() + 1
                &&& final(self).cap() == old(self).cap()
                &&& final(self).elem_tag() == old(self).elem_tag()
                &&& final(gs).filled() == old(gs).filled()
                &&& at < old(gs).bytes().len() ==> final(gs).bytes() == old(gs).bytes().subrange(0, at)
                    + v.spec_to_bytes() + old(gs).bytes().subrange(at + T::spec_size(), old(gs).bytes().len() as int)
                &&& at >= old(gs).bytes().len() ==> final(gs).bytes() == old(gs).bytes()
            },
            final(gs).same_names(old(gs)),
            old(gs).wf() ==> final(gs).wf(),
    {
        let size = T::byte_size();
        if self.length >= self.capacity {
            let length = self.length * size;
            let old_ptr = self.ptr.clone();
            let new_ptr = gs.realloc::<T>(old_ptr, length, self.capacity);
            self.ptr = new_ptr;
            return;
        }
        let cursor = self.ptr.ptr + self.length * size;
        let _ = gs.write_to(v, cursor);
        self.length = self.length + 1;
    }

    /// The element at `index`.
    pub fn get(&self, gs: &GlobalStorage, index: usize) -> (v: T)
        requires
            index <= self.count(),
            self.slot(index as int) <= usize::MAX,
            self.slot(index as int) < gs.bytes().len(),
            self.slot(index as int) + T::spec_size() <= gs.bytes().len(),
        ensures
            v == self.element(gs, index as int),
    {
        let size = T::byte_size();
        let address = self.ptr.ptr + index * size;
        let bytes = gs.storage.as_slice();
        let n = bytes.len();
        assert(address + size <= n);
        let part = slice_subrange(bytes, address, address + size);
        T::from_bytes(part)
    }

    /// Replaces the element at `index` with `value`.
    pub fn get_mut(&self, gs: &mut GlobalStorage, index: usize, value: T)
        requires
            index <= self.count(),
            self.slot(index as int) <= usize::MAX,
            self.slot(index as int) < old(gs).bytes().len(),
            self.slot(index as int) + T::spec_size() <= old(gs).bytes().len(),
        ensures
            final(gs).bytes() == old(gs).bytes().subrange(0, self.slot(index as int)) + value.spec_to_bytes()
                + old(gs).bytes().subrange(self.slot(index as int) + T::spec_size(), old(gs).bytes().len() as int),
            final(gs).filled() == old(gs).filled(),
            final(gs).same_names(old(gs)),
            old(gs).wf() ==> final(gs).wf(),
    {
        let size = T::byte_size();
        let address = self.ptr.ptr + index * size;
        gs.overwrite(value, address);
    }
}

/// How far the tag of an array type lies from the tag of its element type.
pub const ARRAY_TAG_STEP: u64 = 0x1_0000_0000;

/// The tag of an array of elements tagged `t`.
pub open spec fn array_tag(t: u64) -> u64 {
    t.wrapping_add(ARRAY_TAG_STEP)
}

/// The tag of `t` inside `k` levels of arrays.
pub open spec fn nested_array_tag(t: u64, k: nat) -> u64
    decreases k,
{
    if k == 0 {
        t
    } else {
        array_tag(nested_array_tag(t, (k - 1) as nat))
    }
}

proof fn lemma_step_multiple(k: nat)
    by (nonlinear_arith)
    requires
        k < 0x1_0000_0000,
    ensures
        k * 0x1_0000_0000 < 0x1_0000_0000_0000_0000,
{
}

/// Nesting arrays moves the tag by a step per level, around the `u64` range.
pub proof fn lemma_nested_array_tag(t: u64, k: nat)
    requires
        k < 0x1_0000_0000,
    ensures
        nested_array_tag(t, k) as int == if t + k * 0x1_0000_0000 <= u64::MAX {
            t + k * 0x1_0000_0000
        } else {
            t + k * 0x1_0000_0000 - 0x1_0000_0000_0000_0000
        },
    decreases k,
{
    lemma_step_multiple(k);
    if k > 0 {
        lemma_nested_array_tag(t, (k - 1) as nat);
        lemma_step_multiple((k - 1) as nat);
        assert((k - 1) * 0x1_0000_0000 + 0x1_0000_0000 == k * 0x1_0000_0000) by (nonlinear_arith);
    }
}

/// Putting a type inside one or more levels of arrays, fewer than 2^32 of them,
/// never gives back its own tag.
pub proof fn lemma_nested_array_tag_differs(t: u64, k: nat)
    requires
        0 < k < 0x1_0000_0000,
    ensures
        nested_array_tag(t, k) != t,
{
    lemma_nested_array_tag(t, k);
    lemma_step_multiple(k);
    assert(k * 0x1_0000_0000 > 0) by (nonlinear_arith)
        requires
            k > 0,
    ;
}

impl<T: Storable> Storable for DyArray<T> {
    open spec fn spec_type_tag() -> u64 {
        array_tag(T::spec_type_tag())
    }

    open spec fn spec_size() -> nat {
        32
    }

    closed spec fn spec_to_bytes(&self) -> Seq<u8> {
        spec_u64_to_le_bytes(self.ptr.ptr as u64) + spec_u64_to_le_bytes(self.ptr.type_hash)
            + spec_u64_to_le_bytes(self.length as u64) + spec_u64_to_le_bytes(self.capacity as u64)
    }

    closed spec fn spec_from_bytes(bytes: Seq<u8>) -> DyArray<T> {
        DyArray {
            ptr: Ptr {
                ptr: spec_u64_from_le_bytes(bytes.subrange(0, 8)) as usize,
                type_hash: spec_u64_from_le_bytes(bytes.subrange(8, 16)),
                backend_storage: PhantomData,
            },
            length: spec_u64_from_le_bytes(bytes.subrange(16, 24)) as usize,
            capacity: spec_u64_from_le_bytes(bytes.subrange(24, 32)) as usize,
            phantom: PhantomData,
        }
    }

    proof fn lemma_encoding(v: DyArray<T>) {
        lemma_auto_spec_u64_to_from_le_bytes();
        let a = spec_u64_to_le_bytes(v.ptr.ptr as u64);
        let b = spec_u64_to_le_bytes(v.ptr.type_hash);
        let c = spec_u64_to_le_bytes(v.length as u64);
        let d = spec_u64_to_le_bytes(v.capacity as u64);
        let all = a + b + c + d;
        assert(all.subrange(0, 8) =~= a);
        assert(all.subrange(8, 16) =~= b);
        assert(all.subrange(16, 24) =~= c);
        assert(all.subrange(24, 32) =~= d);
    }

    fn type_tag() -> (t: u64) {
        T::type_tag().wrapping_add(ARRAY_TAG_STEP)
    }

    fn byte_size() -> (n: usize) {
        32
    }

    fn to_bytes(&self) -> (b: Vec<u8>) {
        proof {
            lemma_auto_spec_u64_to_from_le_bytes();
        }
        let mut b = u64_to_le_bytes(self.ptr.ptr as u64);
        let mut b2 = u64_to_le_bytes(self.ptr.type_hash);
        let mut b3 = u64_to_le_bytes(self.length as u64);
        let mut b4 = u64_to_le_bytes(self.capacity as u64);
        b.append(&mut b2);
        b.append(&mut b3);
        b.append(&mut b4);
        b
    }

    fn from_bytes(bytes: &[u8]) -> (v: DyArray<T>) {
        let ptr = u64_from_le_bytes(slice_subrange(bytes, 0, 8)) as usize;
        let type_hash = u64_from_le_bytes(slice_subrange(bytes, 8, 16));
        let length = u64_from_le_bytes(slice_subrange(bytes, 16, 24)) as usize;
        let capacity = u64_from_le_bytes(slice_subrange(bytes, 24, 32)) as usize;
        DyArray {
            ptr: Ptr { ptr: ptr, type_hash: type_hash, backend_storage: PhantomData },
            length: length,
            capacity: capacity,
            phantom: PhantomData,
        }
    }
}

/// `last_match` finds a slot that holds `name`, and no later slot holds it.
pub proof fn lemma_last_match_range(names: Seq<TinyString>, name: &str, k: int)
    requires
        0 <= k <= names.len(),
    ensures
        -1 <= last_match(names, name, k) < k,
        last_match(names, name, k) >= 0 ==> same_as_str(names[last_match(names, name, k)], name),
        forall|j: int| last_match(names, name, k) < j < k ==> !same_as_str(#[trigger] names[j], name),
    decreases k,
{
    if k > 0 {
        lemma_last_match_range(names, name, k - 1);
    }
}

/// The last slot below `k` that holds `name` is `idx` when `idx` holds it and no
/// later slot does.
pub proof fn lemma_last_match_is(names: Seq<TinyString>, name: &str, k: int, idx: int)
    requires
        0 <= idx < k <= names.len(),
        same_as_str(names[idx], name),
        forall|j: int| idx < j < k ==> !same_as_str(#[trigger] names[j], name),
    ensures
        last_match(names, name, k) == idx,
    decreases k,
{
    if k - 1 > idx {
        lemma_last_match_is(names, name, k - 1, idx);
    }
}

/// Two slot sequences that agree on which slots hold `name` lead `name` to the same slot.
pub proof fn lemma_last_match_same(a: Seq<TinyString>, b: Seq<TinyString>, name: &str, k: int)
    requires
        0 <= k <= a.len(),
        k <= b.len(),
        forall|j: int| 0 <= j < k ==> same_as_str(#[trigger] a[j], name) == same_as_str(b[j], name),
    ensures
        last_match(a, name, k) == last_match(b, name, k),
    decreases k,
{
    if k > 0 {
        lemma_last_match_same(a, b, name, k - 1);
    }
}

/// A name with one byte per character and at most `FIXED_CHAR_BUFFER_SIZE` of them
/// never makes a comparison run off a slot.
pub proof fn lemma_short_ascii_never_overruns(t: TinyString, name: &str)
    requires
        byte_len(name) == name@.len(),
        byte_len(name) <= FIXED_CHAR_BUFFER_SIZE,
    ensures
        !samestr_overruns(t, name),
{
}

/// What `get` reads back of what `store` wrote: after storing a value of a type
/// with a nonzero size under a fresh name with one byte per character, the name
/// leads to an entry of the same type whose value is `v`.
pub proof fn lemma_store_then_get<T: Storable>(before: &GlobalStorage, after: &GlobalStorage, v: T, name: &str)
    requires
        before.wf(),
        after.wf(),
        byte_len(name) == name@.len(),
        byte_len(name) <= FIXED_CHAR_BUFFER_SIZE,
        !has_name(before.names(), name),
        T::spec_size() > 0,
        stored_as(before, after, v, name),
    ensures
        scan_ok(after.names(), name),
        after.lookup_index(name) == before.entries().len(),
        after.holds::<T>(name),
        after.value_of::<T>(name) == v,
{
    let n = before.entries().len() as int;
    let names = after.names();
    assert(names.len() == NAME_SLOTS);
    assert forall|i: int| 0 <= i < names.len() implies !#[trigger] samestr_overruns(names[i], name) by {
        lemma_short_ascii_never_overruns(names[i], name);
    }
    assert(n < NAME_SLOTS);
    assert(byte_len(name) > 0) by {
        if byte_len(name) == 0 {
            assert(before.names()[n].cursor == 0);
            assert(before.names()[n]@ =~= name@);
            assert(same_as_str(before.names()[n], name));
        }
    }
    assert(same_as_str(names[n], name));
    assert forall|j: int| n < j < NAME_SLOTS implies !same_as_str(#[trigger] names[j], name) by {
        assert(names[j] == before.names()[j]);
        assert(before.names()[j].cursor == 0);
    }
    lemma_last_match_is(names, name, NAME_SLOTS as int, n);
    let bytes = before.bytes() + v.spec_to_bytes();
    T::lemma_encoding(v);
    assert(bytes.subrange(before.bytes().len() as int, (before.bytes().len() + T::spec_size()) as int) =~= v.spec_to_bytes());
}

/// Storing a value leaves every other name leading to the same value it led to before.
pub proof fn lemma_store_keeps_other_names<T: Storable, U: Storable>(
    before: &GlobalStorage,
    after: &GlobalStorage,
    v: T,
    name: &str,
    other: &str,
)
    requires
        before.wf(),
        after.wf(),
        stored_as(before, after, v, name),
        before.holds::<U>(other),
        other@ != name@,
    ensures
        after.lookup_index(other) == before.lookup_index(other),
        after.holds::<U>(other),
        after.value_of::<U>(other) == before.value_of::<U>(other),
{
    let n = before.entries().len() as int;
    let a = before.names();
    let b = after.names();
    let idx = before.lookup_index(other);
    assert(n < NAME_SLOTS);
    lemma_last_match_range(a, other, NAME_SLOTS as int);
    assert(!same_as_str(a[n], other));
    assert forall|j: int| 0 <= j < NAME_SLOTS implies same_as_str(#[trigger] a[j], other) == same_as_str(b[j], other) by {
        if j == n {
            assert(!same_as_str(b[n], other));
        } else {
            assert(a[j] == b[j]);
        }
    }
    lemma_last_match_same(a, b, other, NAME_SLOTS as int);
    assert(after.entries()[idx] == after.entries().subrange(0, n)[idx]);
    let p = before.entries()[idx].offset() as int;
    assert(after.bytes().subrange(p, p + U::spec_size()) =~= before.bytes().subrange(p, p + U::spec_size()));
}

/// Writing a value over the bytes of a named entry makes the name lead to that value.
pub proof fn lemma_write_then_get<T: Storable>(before: &GlobalStorage, after: &GlobalStorage, v: T, name: &str)
    requires
        before.holds::<T>(name),
        after.same_names(before),
        ({
            let at = before.entries()[before.lookup_index(name)].offset() as int;
            after.bytes() == before.bytes().subrange(0, at) + v.spec_to_bytes()
                + before.bytes().subrange(at + T::spec_size(), before.bytes().len() as int)
        }),
    ensures
        after.holds::<T>(name),
        after.value_of::<T>(name) == v,
{
    let at = before.entries()[before.lookup_index(name)].offset() as int;
    T::lemma_encoding(v);
    assert(after.bytes().len() == before.bytes().len());
    assert(after.bytes().subrange(at, at + T::spec_size()) =~= v.spec_to_bytes());
}

/// Growing the arena at its end leaves every named value as it was.
pub proof fn lemma_append_keeps_values<T: Storable>(before: &GlobalStorage, after: &GlobalStorage, name: &str)
    requires
        before.holds::<T>(name),
        after.same_names(before),
        before.bytes().is_prefix_of(after.bytes()),
    ensures
        after.holds::<T>(name),
        after.value_of::<T>(name) == before.value_of::<T>(name),
{
    let p = before.entries()[before.lookup_index(name)].offset() as int;
    assert(after.bytes().subrange(p, p + T::spec_size()) =~= before.bytes().subrange(p, p + T::spec_size()));
}

/// Element `j` ends no later than element `c` starts when `j < c`.
pub proof fn lemma_slots_ordered(j: int, c: int, size: int)
    by (nonlinear_arith)
    requires
        0 <= j < c,
        0 <= size,
    ensures
        j * size + size <= c * size,
{
}

/// What `get` reads back of what `push` wrote: after a push into an array with
/// room, the new last element is the pushed value and the earlier ones are unchanged.
pub proof fn lemma_push_then_get<T: Storable>(
    a0: &DyArray<T>,
    a1: &DyArray<T>,
    gs0: &GlobalStorage,
    gs1: &GlobalStorage,
    v: T,
)
    requires
        a0.count() < a0.cap(),
        a0.slot(a0.count() as int) < gs0.bytes().len(),
        gs0.write_ok(a0.slot(a0.count() as int) as nat, T::spec_size()),
        a1.start() == a0.start(),
        a1.count() == a0.count() + 1,
        ({
            let at = a0.slot(a0.count() as int);
            gs1.bytes() == gs0.bytes().subrange(0, at) + v.spec_to_bytes()
                + gs0.bytes().subrange(at + T::spec_size(), gs0.bytes().len() as int)
        }),
    ensures
        a1.slot(a0.count() as int) + T::spec_size() <= gs1.bytes().len(),
        a1.element(gs1, a0.count() as int) == v,
        forall|j: int| 0 <= j < a0.count() ==> #[trigger] a1.element(gs1, j) == a0.element(gs0, j),
{
    let c = a0.count() as int;
    let at = a0.slot(c);
    let size = T::spec_size() as int;
    T::lemma_encoding(v);
    assert(gs1.bytes().subrange(at, at + size) =~= v.spec_to_bytes());
    assert forall|j: int| 0 <= j < c implies #[trigger] a1.element(gs1, j) == a0.element(gs0, j) by {
        lemma_slots_ordered(j, c, size);
        let s = a0.slot(j);
        assert(gs1.bytes().subrange(s, s + size) =~= gs0.bytes().subrange(s, s + size));
    }
}

/// Growing the arena at its end leaves the elements of an array as they were.
pub proof fn lemma_append_keeps_elements<T: Storable>(a: &DyArray<T>, gs0: &GlobalStorage, gs1: &GlobalStorage, j: int)
    requires
        gs0.bytes().is_prefix_of(gs1.bytes()),
        0 <= a.slot(j),
        a.slot(j) + T::spec_size() <= gs0.bytes().len(),
    ensures
        a.element(gs1, j) == a.element(gs0, j),
{
    let s = a.slot(j);
    assert(gs1.bytes().subrange(s, s + T::spec_size()) =~= gs0.bytes().subrange(s, s + T::spec_size()));
}

/// `after` grew from `before` at the end: the bytes and entries of `before` come
/// first, the names of those entries are kept, and no later slot holds `name`.
pub open spec fn extends(before: &GlobalStorage, after: &GlobalStorage, name: &str) -> bool {
    let n = before.entries().len() as int;
    &&& before.bytes().is_prefix_of(after.bytes())
    &&& before.entries().is_prefix_of(after.entries())
    &&& before.names().len() == NAME_SLOTS
    &&& after.names().len() == NAME_SLOTS
    &&& forall|i: int| 0 <= i < n ==> #[trigger] after.names()[i] == before.names()[i]
    &&& forall|i: int| n <= i < NAME_SLOTS ==> !same_as_str(#[trigger] after.names()[i], name)
}

/// A name keeps leading to the same value while the arena only grows at its end.
pub proof fn lemma_extends_keeps_value<T: Storable>(before: &GlobalStorage, after: &GlobalStorage, name: &str)
    requires
        before.holds::<T>(name),
        extends(before, after, name),
    ensures
        after.lookup_index(name) == before.lookup_index(name),
        after.holds::<T>(name),
        after.value_of::<T>(name) == before.value_of::<T>(name),
{
    let n = before.entries().len() as int;
    let idx = before.lookup_index(name);
    lemma_last_match_range(before.names(), name, NAME_SLOTS as int);
    assert(after.names()[idx] == before.names()[idx]);
    assert forall|j: int| idx < j < NAME_SLOTS implies !same_as_str(#[trigger] after.names()[j], name) by {
        if j < n {
            assert(after.names()[j] == before.names()[j]);
        }
    }
    lemma_last_match_is(after.names(), name, NAME_SLOTS as int, idx);
    assert(after.entries()[idx] == before.entries()[idx]);
    let p = before.entries()[idx].offset() as int;
    assert(after.bytes().subrange(p, p + T::spec_size()) =~= before.bytes().subrange(p, p + T::spec_size()));
}

/// Storing under a name other than a nonempty `name` extends the arena for `name`.
pub proof fn lemma_store_extends<T: Storable>(
    before: &GlobalStorage,
    after: &GlobalStorage,
    v: T,
    stored: &str,
    name: &str,
)
    requires
        before.wf(),
        after.wf(),
        stored_as(before, after, v, stored),
        stored@ != name@,
        name@.len() > 0,
    ensures
        extends(before, after, name),
{
    let n = before.entries().len() as int;
    assert(before.bytes().is_prefix_of(after.bytes())) by {
        assert(after.bytes().subrange(0, before.bytes().len() as int) =~= before.bytes());
    }
    assert(before.entries().is_prefix_of(after.entries()));
    assert forall|i: int| n <= i < NAME_SLOTS implies !same_as_str(#[trigger] after.names()[i], name) by {
        if i > n {
            assert(after.names()[i] == before.names()[i]);
            assert(before.names()[i].cursor == 0);
            lemma_chars_le_bytes(name@);
        }
    }
}

/// Growing the arena at its end without touching the names extends it for every
/// nonempty `name`.
pub proof fn lemma_append_extends(before: &GlobalStorage, after: &GlobalStorage, name: &str)
    requires
        before.wf(),
        after.same_names(before),
        before.bytes().is_prefix_of(after.bytes()),
        name@.len() > 0,
    ensures
        extends(before, after, name),
{
    let n = before.entries().len() as int;
    assert forall|i: int| n <= i < NAME_SLOTS implies !same_as_str(#[trigger] after.names()[i], name) by {
        assert(before.names()[i].cursor == 0);
        lemma_chars_le_bytes(name@);
    }
}

/// What `get` reads back of what `store` wrote, across any run of later steps that
/// each extend the arena for the name: the value it led to at the start.
pub proof fn lemma_run_keeps_value<T: Storable>(states: Seq<GlobalStorage>, name: &str)
    requires
        states.len() >= 1,
        states[0].holds::<T>(name),
        forall|k: int| #![trigger states[k]] 0 <= k < states.len() - 1 ==> extends(&states[k], &states[k + 1], name),
    ensures
        states.last().lookup_index(name) == states[0].lookup_index(name),
        states.last().holds::<T>(name),
        states.last().value_of::<T>(name) == states[0].value_of::<T>(name),
    decreases states.len(),
{
    if states.len() > 1 {
        let front = states.drop_last();
        assert forall|k: int| #![trigger front[k]] 0 <= k < front.len() - 1 implies extends(&front[k], &front[k + 1], name) by {
            assert(front[k] == states[k]);
            assert(front[k + 1] == states[k + 1]);
            assert(extends(&states[k], &states[k + 1], name));
        }
        lemma_run_keeps_value::<T>(front, name);
        let m = states.len() - 2;
        assert(extends(&states[m], &states[m + 1], name));
        lemma_extends_keeps_value::<T>(&front.last(), &states.last(), name);
    }
}

/// Well-formedness depends only on the names and entries.
pub proof fn lemma_same_names_keeps_wf(before: &GlobalStorage, after: &GlobalStorage)
    requires
        before.wf(),
        after.same_names(before),
    ensures
        after.wf(),
{
}

} // verus!
