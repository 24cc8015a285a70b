use blockcopy::storage::LayeredStorage;
use blockcopy::shared_index::{DedicatedIndex, SharedIndex};

#[test]
fn dedicated_index_records_offsets() {
    let mut index = DedicatedIndex::new(3);
    assert_eq!(index.lookup(1), None);
    index.replace(1, 77);
    assert_eq!(index.lookup(1), Some(77));
    index.replace(1, 0);
    assert_eq!(index.lookup(1), Some(0));
    assert_eq!(index.lookup(2), None);
}

#[test]
fn layered_read_resolves_highest_layer() {
    // latest holds {3}, parent holds {1, 3}, grandparent holds {0, 1, 2, 3}.
    let mut shared = SharedIndex::new(4);
    let latest = shared.add_layer(4);
    let parent = shared.add_layer(4);
    let grandparent = shared.add_layer(4);
    assert_eq!(latest.layer_number(), 0);
    assert_eq!(grandparent.layer_number(), 2);
    shared.replace(&latest, 3, 1000);
    assert!(!shared.is_complete());
    shared.replace(&parent, 1, 2000);
    shared.replace(&parent, 3, 2100);
    assert!(!shared.is_complete());
    for k in 0..4 {
        shared.replace(&grandparent, k, 3000 + k as u64);
    }
    assert!(shared.is_complete());
    assert_eq!(shared.lookup_layer(0), Some(2));
    assert_eq!(shared.lookup_layer(1), Some(1));
    assert_eq!(shared.lookup_layer(2), Some(2));
    assert_eq!(shared.lookup_layer(3), Some(0));
    assert_eq!(shared.lookup(&latest, 3), Some(1000));
    assert_eq!(shared.lookup(&latest, 0), None);
    assert_eq!(shared.lookup(&parent, 1), Some(2000));
    assert_eq!(shared.lookup(&grandparent, 2), Some(3002));
}

#[test]
fn higher_layer_overrides_lower_one() {
    let mut shared = SharedIndex::new(1);
    let top = shared.add_layer(1);
    let bottom = shared.add_layer(1);
    shared.replace(&bottom, 0, 5);
    assert_eq!(shared.lookup_layer(0), Some(1));
    shared.replace(&top, 0, 6);
    assert_eq!(shared.lookup_layer(0), Some(0));
    shared.replace(&bottom, 0, 7);
    assert_eq!(shared.lookup(&top, 0), Some(6));
}

struct Layer(Vec<Option<Vec<u8>>>, u64);

impl blockcopy::storage::ChunkReader for Layer {
    fn read_chunk_at(&mut self, chunk_number: usize) -> Result<Option<blockcopy::chunk::Chunk>, String> {
        Ok(self.0[chunk_number].clone().map(|data| blockcopy::chunk::Chunk { offset: chunk_number as u64 * self.1, data }))
    }
}

#[test]
fn layered_storage_reads_owner() {
    let mut shared = SharedIndex::new(4);
    let top = shared.add_layer(4);
    let base = shared.add_layer(4);
    shared.replace(&top, 2, 0);
    for k in 0..3 {
        shared.replace(&base, k, k as u64 * 10);
    }
    let layers = vec![
        Layer(vec![None, None, Some(vec![9]), None], 1),
        Layer(vec![Some(vec![1]), Some(vec![2]), Some(vec![3]), None], 1),
    ];
    let mut view = LayeredStorage::new(shared, layers).unwrap();
    assert_eq!(view.read_chunk_at(2).unwrap().unwrap().data, vec![9]);
    assert_eq!(view.read_chunk_at(1).unwrap().unwrap().data, vec![2]);
    assert!(view.read_chunk_at(3).unwrap().is_none());
    // The last owned chunk read at random was 1, so reading on gives 2.
    assert_eq!(view.read_chunk().unwrap().unwrap().data, vec![9]);
    assert!(view.read_chunk().unwrap().is_none());
    assert_eq!(view.read_chunk_at(0).unwrap().unwrap().data, vec![1]);
    assert_eq!(view.read_chunk().unwrap().unwrap().data, vec![2]);
    assert_eq!(view.read_chunk().unwrap().unwrap().data, vec![9]);
    assert!(view.read_chunk().unwrap().is_none());
}

#[test]
fn raw_layer_fills_every_chunk() {
    let mut shared = SharedIndex::new(4);
    let top = shared.add_layer(4);
    let raw = shared.add_layer(4);
    shared.replace(&top, 1, 7);
    shared.load_full_layer(&raw, 4096);
    assert!(shared.is_complete());
    assert_eq!(shared.lookup_layer(1), Some(0));
    assert_eq!(shared.lookup(&raw, 3), Some(3 * 4096));
    assert_eq!(shared.lookup_layer(0), Some(1));
}
