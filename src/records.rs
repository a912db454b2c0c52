//! Delivery records as they are laid out in the byte-addressable entry
//! store: a 256-byte record written before a delivery and an 8-byte record
//! written after it.
use crate::bitops::{comp24, decomp24};
use vstd::prelude::*;

verus! {

/// A delivery as it is queued: destination, time to deadline, flags and a
/// description already mapped to display character codes.
pub struct Preentry {
    pub dict: u8,
    pub ttd: u16,
    pub flags: u8,
    pub desc: [u8; 252],
}

/// A delivery as it is logged: destination, priority, ids, status and a
/// 24-bit timestamp.
pub struct Postentry {
    pub dict: u8,
    pub prio: u8,
    pub eid: u8,
    pub oid: u8,
    pub dst: u8,
    pub since: u32,
}

/// The stored form of a queued delivery: destination, deadline high and
/// low byte, flags, then the description.
pub open spec fn pre_layout(e: Preentry, b: Seq<u8>) -> bool {
    &&& b.len() == 256
    &&& b[0] == e.dict
    &&& b[1] * 256 + b[2] == e.ttd
    &&& b[3] == e.flags
    &&& forall|i: int| 0 <= i < 252 ==> #[trigger] b[i + 4] == e.desc[i]
}

/// The stored form of a logged delivery: the five bytes in field order,
/// then the timestamp's low 24 bits, high byte first.
pub open spec fn post_layout(e: Postentry, b: Seq<u8>) -> bool {
    &&& b.len() == 8
    &&& b[0] == e.dict
    &&& b[1] == e.prio
    &&& b[2] == e.eid
    &&& b[3] == e.oid
    &&& b[4] == e.dst
    &&& b[5] * 65536 + b[6] * 256 + b[7] == e.since % 16777216
}

impl Preentry {
    pub fn bytize(&self) -> (r: [u8; 256])
        ensures
            pre_layout(*self, r@),
    {
        let mut arr = [0u8; 256];
        arr[0] = self.dict;
        arr[1] = (self.ttd / 256) as u8;
        arr[2] = (self.ttd % 256) as u8;
        arr[3] = self.flags;
        let mut i: usize = 0;
        while i < 252
            invariant
                0 <= i <= 252,
                arr@.len() == 256,
                arr[0] == self.dict,
                arr[1] * 256 + arr[2] == self.ttd,
                arr[3] == self.flags,
                forall|k: int| 0 <= k < i ==> #[trigger] arr[k + 4] == self.desc[k],
            decreases 252 - i,
        {
            arr[i + 4] = self.desc[i];
            i = i + 1;
        }
        arr
    }

    pub fn debytize(byt: [u8; 256]) -> (e: Preentry)
        ensures
            pre_layout(e, byt@),
    {
        let mut desc = [0u8; 252];
        let mut i: usize = 0;
        while i < 252
            invariant
                0 <= i <= 252,
                forall|k: int| 0 <= k < i ==> #[trigger] desc[k] == byt[k + 4],
            decreases 252 - i,
        {
            desc[i] = byt[i + 4];
            i = i + 1;
        }
        Preentry { dict: byt[0], ttd: (byt[1] as u16) * 256 + byt[2] as u16, flags: byt[3], desc }
    }
}

impl Postentry {
    pub fn bytize(&self) -> (r: [u8; 8])
        ensures
            post_layout(*self, r@),
    {
        let t = decomp24(self.since);
        [self.dict, self.prio, self.eid, self.oid, self.dst, t[0], t[1], t[2]]
    }

    pub fn debytize(byt: [u8; 8]) -> (e: Postentry)
        ensures
            post_layout(e, byt@),
            e.since < 16777216,
    {
        Postentry {
            dict: byt[0],
            prio: byt[1],
            eid: byt[2],
            oid: byt[3],
            dst: byt[4],
            since: comp24([byt[5], byt[6], byt[7]]),
        }
    }
}

/// An address outside a cursor's window was asked for.
#[derive(Debug, PartialEq, Eq, Structural, Clone, Copy)]
pub struct OutOfBoundsError;

/// A write cursor over the window `lbound ..= ubound` of the store.
pub struct AddressPointer {
    pub addr: u16,
    pub lbound: u16,
    pub ubound: u16,
}

impl AddressPointer {
    /// A cursor at the start of its window.
    pub fn default(lbound: u16, ubound: u16) -> (p: AddressPointer)
        ensures
            p.addr == lbound,
            p.lbound == lbound,
            p.ubound == ubound,
    {
        AddressPointer { lbound, ubound, addr: lbound }
    }

    /// Moves the cursor back to the start of its window; returns where it
    /// was.
    pub fn reset(&mut self) -> (r: u16)
        ensures
            r == old(self).addr,
            final(self).addr == old(self).lbound,
            final(self).lbound == old(self).lbound,
            final(self).ubound == old(self).ubound,
    {
        let old_addr = self.addr;
        self.addr = self.lbound;
        old_addr
    }

    /// Moves the cursor to `new_addr`, which must lie in the window.
    pub fn set(&mut self, new_addr: u16) -> (r: Result<(), OutOfBoundsError>)
        ensures
            final(self).lbound == old(self).lbound,
            final(self).ubound == old(self).ubound,
            r is Ok <==> old(self).lbound <= new_addr <= old(self).ubound,
            r is Ok ==> final(self).addr == new_addr,
            r is Err ==> final(self).addr == old(self).addr,
    {
        if new_addr < self.lbound || new_addr > self.ubound {
            return Err(OutOfBoundsError);
        }
        self.addr = new_addr;
        Ok(())
    }

    /// Moves the cursor to `f` of its address; returns the new address.
    pub fn update<F: FnOnce(u16) -> u16>(&mut self, f: F) -> (r: Result<u16, OutOfBoundsError>)
        requires
            f.requires((old(self).addr,)),
        ensures
            final(self).lbound == old(self).lbound,
            final(self).ubound == old(self).ubound,
            exists|to: u16|
                #[trigger] f.ensures((old(self).addr,), to) && (if old(self).lbound <= to
                    <= old(self).ubound {
                    r == Ok::<u16, OutOfBoundsError>(to) && final(self).addr == to
                } else {
                    r == Err::<u16, OutOfBoundsError>(OutOfBoundsError) && final(self).addr == old(
                        self,
                    ).addr
                }),
    {
        let to = f(self.addr);
        match self.set(to) {
            Ok(()) => Ok(self.addr),
            Err(e) => Err(e),
        }
    }
}

/// Reading back a stored queued delivery gives the same delivery.
pub proof fn lemma_pre_round_trip(e: Preentry, b: Seq<u8>, d: Preentry)
    requires
        pre_layout(e, b),
        pre_layout(d, b),
    ensures
        d.dict == e.dict,
        d.ttd == e.ttd,
        d.flags == e.flags,
        d.desc@ == e.desc@,
{
    assert forall|i: int| 0 <= i < 252 implies d.desc@[i] == e.desc@[i] by {
        assert(b[i + 4] == e.desc[i]);
    }
    assert(d.desc@ =~= e.desc@);
}

/// Reading back a stored logged delivery gives the same delivery, its
/// timestamp cut to 24 bits.
pub proof fn lemma_post_round_trip(e: Postentry, b: Seq<u8>, d: Postentry)
    requires
        post_layout(e, b),
        post_layout(d, b),
        d.since < 16777216,
    ensures
        d.dict == e.dict && d.prio == e.prio && d.eid == e.eid && d.oid == e.oid && d.dst == e.dst,
        d.since == e.since % 16777216,
{
}

} // verus!
