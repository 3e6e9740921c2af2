use vstd::prelude::*;
use crate::error::Error;

verus! {

/// A store of 512-byte blocks, addressed by index.
///
/// `view` is what the store holds, block by block. A read hands out the
/// block as it stands; a write replaces one block and leaves the others. A
/// store whose `reliable` is true never fails within its range.
pub trait Disk {
    spec fn view(&self) -> Seq<Seq<u8>>;

    spec fn inv(&self) -> bool;

    spec fn reliable(&self) -> bool;

    /// The number of blocks.
    fn blocks(&self) -> (n: u64)
        requires
            self.inv(),
        ensures
            n == self@.len(),
    ;

    fn read(&mut self, block: u64, buf: &mut [u8; 512]) -> (r: Result<(), Error>)
        requires
            old(self).inv(),
        ensures
            final(self).inv(),
            final(self)@ == old(self)@,
            final(self).reliable() == old(self).reliable(),
            r is Ok ==> block < old(self)@.len() && final(buf)@ == old(self)@[block as int],
            old(self).reliable() && block < old(self)@.len() ==> r is Ok,
    ;

    fn write(&mut self, block: u64, buf: &[u8; 512]) -> (r: Result<(), Error>)
        requires
            old(self).inv(),
        ensures
            final(self).inv(),
            final(self).reliable() == old(self).reliable(),
            r is Ok ==> block < old(self)@.len() && final(self)@ == old(self)@.update(
                block as int,
                buf@,
            ),
            r is Err ==> final(self)@ == old(self)@,
            old(self).reliable() && block < old(self)@.len() ==> r is Ok,
    ;

    /// Every block holds 512 bytes.
    proof fn lemma_block_len(&self, block: int)
        requires
            self.inv(),
            0 <= block < self@.len(),
        ensures
            self@[block].len() == 512,
    ;
}

/// A disk held in memory. It never fails within its range.
pub struct MemDisk {
    pub data: Vec<[u8; 512]>,
}

impl MemDisk {
    /// A disk of `blocks` zeroed blocks.
    pub fn new(blocks: usize) -> (d: MemDisk)
        ensures
            d.inv(),
            d@.len() == blocks,
            forall|b: int, i: int| 0 <= b < blocks && 0 <= i < 512 ==> d@[b][i] == 0u8,
    {
        let mut data: Vec<[u8; 512]> = Vec::new();
        let zero: [u8; 512] = [0u8; 512];
        let mut n: usize = 0;
        while n < blocks
            invariant
                n <= blocks,
                data@.len() == n,
                forall|i: int| 0 <= i < 512 ==> zero@[i] == 0u8,
                forall|b: int| 0 <= b < n ==> data@[b] == zero,
            decreases blocks - n,
        {
            data.push(zero);
            n += 1;
        }
        MemDisk { data }
    }
}

impl Disk for MemDisk {
    open spec fn view(&self) -> Seq<Seq<u8>> {
        Seq::new(self.data@.len(), |b: int| self.data@[b]@)
    }

    open spec fn inv(&self) -> bool {
        true
    }

    open spec fn reliable(&self) -> bool {
        true
    }

    fn blocks(&self) -> (n: u64) {
        self.data.len() as u64
    }

    fn read(&mut self, block: u64, buf: &mut [u8; 512]) -> (r: Result<(), Error>) {
        if block >= self.data.len() as u64 {
            return Err(Error::Io);
        }
        *buf = self.data[block as usize];
        Ok(())
    }

    fn write(&mut self, block: u64, buf: &[u8; 512]) -> (r: Result<(), Error>) {
        if block >= self.data.len() as u64 {
            return Err(Error::Io);
        }
        self.data.set(block as usize, *buf);
        assert(self@ =~= old(self)@.update(block as int, buf@));
        Ok(())
    }

    proof fn lemma_block_len(&self, block: int) {
    }
}

} // verus!
