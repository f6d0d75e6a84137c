use vstd::prelude::*;
use core::marker::PhantomData;
use core::num::NonZeroUsize;
use crate::collector::{Collector, AllocError, new_block, fits, live_set, swept_from, released_from, word_at};
use crate::gc::BlockMetadata;
use crate::index::{Block, block_ok};
use crate::reach::lemma_unique_holder;

verus! {

/// A non-null payload address, held as a `NonZeroUsize` so that
/// `Option<Gc<T>>` has the size of one word. The struct is opaque: its word
/// is read only through the functions below.
#[verifier::external_body]
pub struct Address {
    raw: NonZeroUsize,
}

impl Clone for Address {
    /// Relies on `NonZeroUsize` being `Copy`: the clone holds the same word.
    #[verifier::external_body]
    fn clone(&self) -> (r: Self)
        ensures
            address_value(r) == address_value(*self),
    {
        Address { raw: self.raw }
    }
}

impl Copy for Address {
}

/// The word an `Address` holds.
pub uninterp spec fn address_value(a: Address) -> usize;

/// Relies on `NonZeroUsize::new`: `None` for zero, else a value holding `n`.
#[verifier::external_body]
fn address_new(n: usize) -> (r: Option<Address>)
    ensures
        n == 0 <==> r.is_none(),
        n != 0 ==> address_value(r.unwrap()) == n,
{
    match NonZeroUsize::new(n) {
        Some(raw) => Some(Address { raw }),
        None => None,
    }
}

/// Relies on `NonZeroUsize::get`: the word the address was made from.
#[verifier::external_body]
fn address_get(a: &Address) -> (r: usize)
    ensures
        r == address_value(*a),
        r != 0,
{
    a.raw.get()
}

/// A copyable handle on a managed payload of type `T`: the payload's address.
pub struct Gc<T> {
    objptr: Address,
    marker: PhantomData<T>,
}

impl<T> Clone for Gc<T> {
    fn clone(&self) -> (r: Self)
        ensures
            r.addr() == self.addr(),
    {
        Gc { objptr: self.objptr, marker: PhantomData }
    }
}

impl<T> Copy for Gc<T> {
}

impl<T> Gc<T> {
    pub closed spec fn addr(&self) -> usize {
        address_value(self.objptr)
    }

    /// A handle on the payload at `addr`; `None` for the null address.
    pub fn from_addr(addr: usize) -> (r: Option<Gc<T>>)
        ensures
            addr == 0 <==> r.is_none(),
            addr != 0 ==> r.unwrap().addr() == addr,
    {
        match address_new(addr) {
            Some(objptr) => Some(Gc { objptr, marker: PhantomData }),
            None => None,
        }
    }

    /// The payload's address.
    pub fn as_ptr(&self) -> (r: usize)
        ensures
            r == self.addr(),
            r != 0,
    {
        address_get(&self.objptr)
    }
}


/// The managed block that starts at `addr` records the type `type_tag`.
pub open spec fn tagged_at(s: Seq<Block>, addr: int, type_tag: u64) -> bool {
    exists|k: int|
        0 <= k < s.len() && (#[trigger] s[k]).info.base == addr && s[k].info.is_managed
            && s[k].gcbox.type_tag == type_tag
}

impl<T> Gc<T> {
    /// Allocates a managed payload holding `words`, whose type is
    /// `type_tag` and whose destructor is `drop_vptr`. When earlier
    /// allocations have taken the counter past the threshold, a cycle over
    /// `roots` runs first.
    pub fn new(c: &mut Collector, words: Vec<usize>, type_tag: u64, drop_vptr: u64, roots: &Vec<usize>)
        -> (r: Result<Gc<T>, AllocError>)
        requires
            old(c).wf(),
        ensures
            final(c).wf(),
            (words@.len() > 0 && fits(old(c).next_free, 1, words@.len())) <==> r.is_ok(),
            words@.len() == 0 ==> r == Err::<Gc<T>, AllocError>(AllocError::EmptyPayload),
            words@.len() > 0 && !fits(old(c).next_free, 1, words@.len()) ==> r == Err::<Gc<T>, AllocError>(AllocError::Exhausted),
            final(c).flags == old(c).flags,
            final(c).threshold == old(c).threshold,
            final(c).next_free == old(c).next_free + if r.is_ok() { 1 + words@.len() } else { 0 },
            ({
                let due = old(c).allocated > old(c).threshold;
                let live = live_set(old(c).index.blocks@, roots@, old(c).flags.mark_phase);
                let before = if due {
                    swept_from(old(c).index.blocks@, live, old(c).flags, !old(c).current_black, 0)
                } else {
                    old(c).index.blocks@
                };
                let black = if due { !old(c).current_black } else { old(c).current_black };
                let counted = if due { 0 } else { old(c).allocated };
                &&& final(c).current_black == black
                &&& final(c).pending@ == if due {
                    old(c).pending@ + released_from(old(c).index.blocks@, live, old(c).flags, 0)
                } else {
                    old(c).pending@
                }
                &&& r.is_err() ==> final(c).index.blocks@ == before && final(c).allocated == counted
                &&& r.is_ok() ==> {
                    &&& r.unwrap().addr() == old(c).next_free + 1
                    &&& final(c).index.blocks@ == before.push(new_block(
                        (old(c).next_free + 1) as usize,
                        words,
                        true,
                        BlockMetadata { mark_bit: !black, dropped: false, drop_vptr },
                        type_tag,
                    ))
                    &&& final(c).allocated == counted + words@.len()
                }
            }),
    {
        if c.collection_due() {
            c.collect(roots);
        }
        let base = match c.alloc_managed(words, type_tag, drop_vptr) {
            Ok(base) => base,
            Err(e) => return Err(e),
        };
        match address_new(base) {
            Some(objptr) => Ok(Gc { objptr, marker: PhantomData }),
            None => Err(AllocError::Exhausted),
        }
    }

    /// Narrows the handle to `Gc<U>` when the payload's recorded type is
    /// `type_tag`, the tag that stands for `U`'s identity (the one `U`'s
    /// payloads are allocated with); otherwise the handle comes back
    /// unchanged.
    pub fn downcast<U>(&self, c: &Collector, type_tag: u64) -> (r: Result<Gc<U>, Gc<T>>)
        requires
            c.wf(),
        ensures
            match r {
                Ok(g) => g.addr() == self.addr() && tagged_at(c.index.blocks@, self.addr() as int, type_tag),
                Err(g) => g.addr() == self.addr() && !tagged_at(c.index.blocks@, self.addr() as int, type_tag),
            },
    {
        let addr = self.as_ptr();
        let s = Ghost(c.index.blocks@);
        match c.index.find(addr) {
            Some(k) => {
                let b = c.index.get(k);
                if b.info.base == addr && b.info.is_managed && b.gcbox.type_tag == type_tag {
                    return Ok(Gc { objptr: self.objptr, marker: PhantomData });
                }
                proof {
                    if tagged_at(s@, addr as int, type_tag) {
                        let j = choose|j: int| 0 <= j < s@.len() && (#[trigger] s@[j]).info.base == addr as int && s@[j].info.is_managed
                            && s@[j].gcbox.type_tag == type_tag;
                        assert(block_ok(s@[j]));
                        lemma_unique_holder(s@, addr as int, j, k as int);
                    }
                }
            },
            None => {
                proof {
                    if tagged_at(s@, addr as int, type_tag) {
                        let j = choose|j: int| 0 <= j < s@.len() && (#[trigger] s@[j]).info.base == addr as int && s@[j].info.is_managed
                            && s@[j].gcbox.type_tag == type_tag;
                        assert(block_ok(s@[j]));
                    }
                }
            },
        }
        Err(Gc { objptr: self.objptr, marker: PhantomData })
    }

    /// Word `i` of the payload.
    pub fn read(&self, c: &Collector, i: usize) -> (r: Option<usize>)
        requires
            c.wf(),
        ensures
            r == if self.addr() + i <= usize::MAX { word_at(c.index.blocks@, self.addr() + i) } else { None },
    {
        let addr = self.as_ptr();
        if i > usize::MAX - addr {
            return None;
        }
        c.load(addr + i)
    }

    /// Overwrites word `i` of the payload; `false` when no block holds it.
    pub fn write(&self, c: &mut Collector, i: usize, value: usize) -> (r: bool)
        requires
            old(c).wf(),
        ensures
            final(c).wf(),
            self.addr() + i > usize::MAX ==> !r && *final(c) == *old(c),
            self.addr() + i <= usize::MAX ==> {
                &&& r == word_at(old(c).index.blocks@, self.addr() + i).is_some()
                &&& word_at(final(c).index.blocks@, self.addr() + i) == if r { Some(value) } else { None }
                &&& forall|a: int| a != self.addr() + i ==> word_at(final(c).index.blocks@, a) == word_at(old(c).index.blocks@, a)
                &&& forall|k: int| 0 <= k < old(c).index.blocks@.len() ==>
                    (#[trigger] final(c).index.blocks@[k]).info == old(c).index.blocks@[k].info
                    && final(c).index.blocks@[k].gcbox.header == old(c).index.blocks@[k].gcbox.header
                &&& final(c).index.blocks@.len() == old(c).index.blocks@.len()
                &&& *final(c) == (Collector { index: final(c).index, ..*old(c) })
            },
    {
        let addr = self.as_ptr();
        if i > usize::MAX - addr {
            return false;
        }
        c.store(addr + i, value)
    }
}

} // verus!
