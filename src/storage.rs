use vstd::prelude::*;
use crate::chunk::Chunk;
use crate::shared_index::SharedIndex;

verus! {

/// Where a backup's chunks go.
pub trait Storage {
    /// Store a chunk; chunks may come in any order, and a later write of the
    /// same chunk replaces the earlier one.
    fn write_chunk(&mut self, chunk: &Chunk) -> Result<(), String>;

    /// Finish the backup. Called once, after the last write.
    fn commit(&mut self) -> Result<(), String>;
}

/// Storage that keeps nothing.
pub struct NullStorage {}

impl NullStorage {
    pub fn new() -> (r: Self) {
        NullStorage {  }
    }
}

impl Storage for NullStorage {
    fn write_chunk(&mut self, chunk: &Chunk) -> (r: Result<(), String>) {
        Ok(())
    }

    fn commit(&mut self) -> (r: Result<(), String>) {
        Ok(())
    }
}

/// Where a backup's checksum ledger goes.
pub trait ChecksumStore {
    /// Save the ledger's entries, one per chunk: `None` where nothing is kept.
    fn save(&mut self, entries: &Vec<Option<Vec<u8>>>) -> Result<(), String>;
}

/// What a store's header says of it.
#[derive(Clone, Copy, PartialEq, Eq, Structural, Debug)]
pub struct StorageProperties {
    /// Logical size of the data the store represents.
    pub size: u64,
    /// Chunks can be looked up by number.
    pub indexed: bool,
}

/// Random-access reads from one layer of a layered backup.
pub trait ChunkReader {
    /// The chunk numbered `chunk_number`, if the layer holds it.
    fn read_chunk_at(&mut self, chunk_number: usize) -> Result<Option<Chunk>, String>;
}

/// The logical view of a backup and its ancestors: each chunk is read from
/// the highest-priority layer that holds it.
pub struct LayeredStorage<L: ChunkReader> {
    index: SharedIndex,
    layers: Vec<L>,
    position: usize,
    /// The last read handed to a layer: (layer, chunk number).
    last_read: Ghost<Option<(usize, usize)>>,
}

impl<L: ChunkReader> LayeredStorage<L> {
    pub closed spec fn spec_index(&self) -> Seq<Option<(usize, u64)>> {
        self.index@
    }

    pub closed spec fn spec_position(&self) -> usize {
        self.position
    }

    /// The last read handed to a layer: the layer and the chunk number.
    pub closed spec fn spec_last_read(&self) -> Option<(usize, usize)> {
        self.last_read@
    }

    pub closed spec fn spec_layer_count(&self) -> nat {
        self.layers@.len()
    }

    pub closed spec fn wf(&self) -> bool {
        &&& self.index.wf()
        &&& self.index.spec_layer_count() == self.layers@.len()
        &&& self.position <= self.index@.len()
    }

    /// The view over `layers`, top layer first, with the index they filled.
    pub fn new(index: SharedIndex, layers: Vec<L>) -> (r: Option<Self>)
        requires
            index.wf(),
        ensures
            r is Some <==> index.spec_layer_count() == layers@.len(),
            r is Some ==> r->Some_0.wf() && r->Some_0.spec_index() == index@ && r->Some_0.spec_position() == 0
                && r->Some_0.spec_last_read() is None && r->Some_0.spec_layer_count() == layers@.len(),
    {
        if index.layer_count() != layers.len() {
            return None;
        }
        Some(LayeredStorage { index, layers, position: 0, last_read: Ghost(None) })
    }

    /// The chunk numbered `chunk_number` from the layer that owns it;
    /// `None` when no layer holds it.
    pub fn read_chunk_at(&mut self, chunk_number: usize) -> (r: Result<Option<Chunk>, String>)
        requires
            old(self).wf(),
            chunk_number < old(self).spec_index().len(),
        ensures
            final(self).wf(),
            final(self).spec_index() == old(self).spec_index(),
            final(self).spec_layer_count() == old(self).spec_layer_count(),
            old(self).spec_index()[chunk_number as int] is None ==> (r matches Ok(None)) && final(self).spec_last_read()
                == old(self).spec_last_read() && final(self).spec_position() == old(self).spec_position(),
            old(self).spec_index()[chunk_number as int] is Some ==> final(self).spec_position() == chunk_number + 1,
            old(self).spec_index()[chunk_number as int] is Some ==> final(self).spec_last_read() == Some(
                (old(self).spec_index()[chunk_number as int]->Some_0.0, chunk_number),
            ),
    {
        match self.index.lookup_layer(chunk_number) {
            None => Ok(None),
            Some(layer) => {
                proof {
                    self.index.lemma_owner_is_a_layer(chunk_number as int);
                }
                self.last_read = Ghost(Some((layer, chunk_number)));
                let n = self.index.len();
                assert(chunk_number < n);
                self.position = chunk_number + 1;
                self.layers[layer].read_chunk_at(chunk_number)
            },
        }
    }

    /// The next chunk that some layer holds, in chunk order; `None` past
    /// the last one.
    pub fn read_chunk(&mut self) -> (r: Result<Option<Chunk>, String>)
        requires
            old(self).wf(),
        ensures
            final(self).wf(),
            final(self).spec_index() == old(self).spec_index(),
            old(self).spec_position() <= final(self).spec_position() <= old(self).spec_index().len(),
            forall|k: int| old(self).spec_position() <= k < final(self).spec_position() - 1 ==> old(self).spec_index()[k] is None,
            final(self).spec_position() > old(self).spec_position() && old(self).spec_index()[final(self).spec_position() - 1] is Some
                || (final(self).spec_position() == old(self).spec_index().len() && (r matches Ok(None)) && forall|k: int|
                old(self).spec_position() <= k < old(self).spec_index().len() ==> old(self).spec_index()[k] is None),
            final(self).spec_position() > old(self).spec_position() && old(self).spec_index()[final(self).spec_position() - 1] is Some
                ==> final(self).spec_last_read() == Some(
                (old(self).spec_index()[final(self).spec_position() - 1]->Some_0.0, (final(self).spec_position() - 1) as usize),
            ),
    {
        let n = self.index.len();
        while self.position < n
            invariant
                self.wf(),
                n == self.index@.len(),
                self.index@ == old(self).spec_index(),
                old(self).spec_position() <= self.position,
                forall|k: int| old(self).spec_position() <= k < self.position ==> self.index@[k] is None,
            decreases n - self.position,
        {
            let k = self.position;
            self.position = self.position + 1;
            match self.index.lookup_layer(k) {
                None => {},
                Some(layer) => {
                    proof {
                        self.index.lemma_owner_is_a_layer(k as int);
                    }
                    self.last_read = Ghost(Some((layer, k)));
                    return self.layers[layer].read_chunk_at(k);
                },
            }
        }
        Ok(None)
    }
}

} // verus!
