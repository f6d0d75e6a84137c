use vstd::prelude::*;

verus! {

/// Colour of an object in the tri-colour abstraction. Grey objects are the
/// ones waiting on the collector's worklist, so only two colours are stored.
#[derive(PartialEq, Eq, Debug, Clone, Copy, Structural)]
pub enum Colour {
    Black,
    White,
}

/// The header stored in front of every managed payload.
#[derive(PartialEq, Eq, Debug, Clone, Copy, Structural)]
pub struct BlockMetadata {
    pub mark_bit: bool,
    /// Set once the payload's destructor has been started.
    pub dropped: bool,
    /// Address of the type-erased destructor of the payload.
    pub drop_vptr: u64,
}

impl BlockMetadata {
    /// A fresh header: white with respect to `current_black`, not dropped,
    /// and with no destructor recorded yet.
    pub fn fresh(current_black: bool) -> (r: BlockMetadata)
        ensures
            r.mark_bit == !current_black,
            !r.dropped,
            r.drop_vptr == 0,
    {
        BlockMetadata { mark_bit: !current_black, dropped: false, drop_vptr: 0 }
    }
}

/// The colour that a mark bit stands for while the collector's black polarity
/// is `current_black`.
pub open spec fn colour_of(mark_bit: bool, current_black: bool) -> Colour {
    if mark_bit == current_black {
        Colour::Black
    } else {
        Colour::White
    }
}

/// One pass through the destructor guard of a box whose flag is `dropped`
/// and whose colour is white or not: whether the destructor runs now, and
/// the flag afterwards.
pub open spec fn guard_step(dropped: bool, white: bool) -> (bool, bool) {
    if white && !dropped {
        (true, true)
    } else {
        (false, dropped)
    }
}

/// How many times the destructor runs over a run of guard passes, starting
/// from the flag `dropped`, where `whites[i]` is the box's colour at pass `i`
/// (colours may change between passes; the flag is kept by every other
/// operation on the box).
pub open spec fn guard_runs(dropped: bool, whites: Seq<bool>) -> nat
    decreases whites.len(),
{
    if whites.len() == 0 {
        0
    } else {
        let (ran, next) = guard_step(dropped, whites[0]);
        (if ran { 1nat } else { 0nat }) + guard_runs(next, whites.drop_first())
    }
}

/// However many guard passes a box goes through, and whatever its colour at
/// each, its destructor runs at most once, and never once the flag is set.
pub proof fn lemma_destructor_at_most_once(dropped: bool, whites: Seq<bool>)
    ensures
        guard_runs(dropped, whites) <= 1,
        dropped ==> guard_runs(dropped, whites) == 0,
    decreases whites.len(),
{
    if whites.len() > 0 {
        lemma_destructor_at_most_once(true, whites.drop_first());
        lemma_destructor_at_most_once(dropped, whites.drop_first());
    }
}

/// A managed allocation: its header, the runtime identity of the payload's
/// type, and the payload itself as machine words.
pub struct GcBox {
    pub header: BlockMetadata,
    pub type_tag: u64,
    pub words: Vec<usize>,
}

impl GcBox {
    pub fn new(header: BlockMetadata, type_tag: u64, words: Vec<usize>) -> (r: GcBox)
        ensures
            r.header == header,
            r.type_tag == type_tag,
            r.words@ == words@,
    {
        GcBox { header, type_tag, words }
    }

    pub fn metadata(&self) -> (r: BlockMetadata)
        ensures
            r == self.header,
    {
        self.header
    }

    /// Replaces the header. A `dropped` flag that is set stays set.
    pub fn set_metadata(&mut self, header: BlockMetadata)
        requires
            old(self).header.dropped ==> header.dropped,
        ensures
            *final(self) == (GcBox { header, ..*old(self) }),
    {
        self.header = header;
    }

    /// Paints the box `colour` under the polarity `current_black`.
    pub fn set_colour(&mut self, colour: Colour, current_black: bool)
        ensures
            colour_of(final(self).header.mark_bit, current_black) == colour,
            final(self).header.dropped == old(self).header.dropped,
            final(self).header.drop_vptr == old(self).header.drop_vptr,
            final(self).type_tag == old(self).type_tag,
            final(self).words@ == old(self).words@,
    {
        let mut metadata = self.metadata();
        match colour {
            Colour::Black => metadata.mark_bit = current_black,
            Colour::White => metadata.mark_bit = !current_black,
        }
        self.set_metadata(metadata);
    }

    pub fn colour(&self, current_black: bool) -> (r: Colour)
        ensures
            r == colour_of(self.header.mark_bit, current_black),
    {
        let metadata = self.metadata();
        if metadata.mark_bit == current_black {
            Colour::Black
        } else {
            Colour::White
        }
    }

    /// Sets the `dropped` flag; once set, it is never cleared.
    pub fn set_dropped(&mut self, value: bool)
        requires
            value || !old(self).header.dropped,
        ensures
            final(self).header == (BlockMetadata { dropped: value, ..old(self).header }),
            final(self).type_tag == old(self).type_tag,
            final(self).words@ == old(self).words@,
    {
        let mut metadata = self.metadata();
        metadata.dropped = value;
        self.set_metadata(metadata);
    }

    pub fn set_drop_vptr(&mut self, value: u64)
        ensures
            final(self).header == (BlockMetadata { drop_vptr: value, ..old(self).header }),
            final(self).type_tag == old(self).type_tag,
            final(self).words@ == old(self).words@,
    {
        let mut metadata = self.metadata();
        metadata.drop_vptr = value;
        self.set_metadata(metadata);
    }

    pub fn drop_vptr(&self) -> (r: u64)
        ensures
            r == self.header.drop_vptr,
    {
        self.metadata().drop_vptr
    }

    /// The destructor guard. A black box, or one whose destructor has already
    /// been started, is left alone and `false` comes back. Otherwise the box is
    /// flagged as dropped and `true` says that its destructor is to run now.
    pub fn begin_drop(&mut self, current_black: bool) -> (r: bool)
        ensures
            (r, final(self).header.dropped) == guard_step(
                old(self).header.dropped,
                colour_of(old(self).header.mark_bit, current_black) == Colour::White,
            ),
            final(self).header.mark_bit == old(self).header.mark_bit,
            final(self).header.drop_vptr == old(self).header.drop_vptr,
            final(self).type_tag == old(self).type_tag,
            final(self).words@ == old(self).words@,
    {
        if self.colour(current_black) == Colour::Black || self.metadata().dropped {
            return false;
        }
        self.set_dropped(true);
        true
    }
}

} // verus!
