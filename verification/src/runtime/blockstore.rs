//! The blockstore: where the input facts lie under their content
//! identifiers.

use vstd::prelude::*;
use crate::error::Error;
use crate::tuple::{InputTuple, InputTupleView};
use crate::value::Cid;

verus! {

/// The view of an optional input tuple.
pub open spec fn opt_input_view(tuple: Option<InputTuple>) -> Option<InputTupleView> {
    match tuple {
        Some(t) => Some(t@),
        None => None,
    }
}

/// Content-addressed storage, as the machine needs it: the input fact that
/// lies under a content identifier, if any. The machine asks for each input
/// fact with a content identifier when it takes the fact in, and goes by the
/// answer from then on. Nothing is assumed of an implementation: whatever it
/// answers, the machine states what it does with the answer.
pub trait Blockstore {
    /// Fetches the input fact that lies under `cid`.
    fn get(&self, cid: &Cid) -> Result<Option<InputTuple>, Error>;
}

/// The content identifiers among `held`, as a set.
pub open spec fn held_set(held: Seq<Seq<u8>>) -> Set<Seq<u8>> {
    Set::new(|cid: Seq<u8>| held.contains(cid))
}

/// A block of a [`MemoryBlockstore`].
pub struct Block {
    pub cid: Cid,
    pub tuple: InputTuple,
}

/// The fact that `blocks` holds under `cid`: that of the last block for it.
pub open spec fn block_lookup(blocks: Seq<Block>, cid: Seq<u8>) -> Option<InputTupleView>
    decreases blocks.len(),
{
    if blocks.len() == 0 {
        None
    } else if blocks.last().cid@ == cid {
        Some(blocks.last().tuple@)
    } else {
        block_lookup(blocks.drop_last(), cid)
    }
}

/// A blockstore in memory.
pub struct MemoryBlockstore {
    blocks: Vec<Block>,
}

impl MemoryBlockstore {
    /// The input fact that lies under `cid`, if any.
    pub closed spec fn block(&self, cid: Seq<u8>) -> Option<InputTupleView> {
        block_lookup(self.blocks@, cid)
    }

    /// An empty blockstore.
    pub fn new() -> (store: MemoryBlockstore)
        ensures
            forall|cid: Seq<u8>| store.block(cid).is_none(),
    {
        MemoryBlockstore { blocks: Vec::new() }
    }

    /// Puts `tuple` under `cid`, in place of what was there.
    pub fn put(&mut self, cid: Cid, tuple: InputTuple)
        ensures
            forall|other: Seq<u8>|
                final(self).block(other) == (if other == cid@ {
                    Some(tuple@)
                } else {
                    old(self).block(other)
                }),
    {
        let ghost before = self.blocks@;
        self.blocks.push(Block { cid, tuple });
        assert(self.blocks@.drop_last() =~= before);
    }
}

impl Blockstore for MemoryBlockstore {
    fn get(&self, cid: &Cid) -> (r: Result<Option<InputTuple>, Error>)
        ensures
            r matches Ok(found) && opt_input_view(found) == self.block(cid@),
    {
        let mut i: usize = self.blocks.len();
        let ghost all = self.blocks@;
        assert(all.take(i as int) =~= all);
        while i > 0
            invariant
                i <= self.blocks.len(),
                all == self.blocks@,
                block_lookup(all, cid@) == block_lookup(all.take(i as int), cid@),
            decreases i,
        {
            proof {
                let prefix = all.take(i as int);
                assert(prefix.last() == all[i - 1]);
                assert(prefix.drop_last() =~= all.take(i - 1));
            }
            if self.blocks[i - 1].cid.same(cid) {
                return Ok(Some(self.blocks[i - 1].tuple.clone()));
            }
            i -= 1;
        }
        Ok(None)
    }
}

} // verus!
