use vstd::prelude::*;
use crate::backup::{Backup, BackupModel, run_models, run_writes};
use crate::chunk::{Chunk, valid_chunk};
use crate::storage::Storage;

verus! {

/// Every item names a job and holds a chunk that fits that job's device.
pub open spec fn items_fit<S: Storage>(destinations: Seq<Backup<S>>, items: Seq<(usize, Chunk)>) -> bool {
    forall|i: int| 0 <= i < items.len() ==> {
        let (j, c) = #[trigger] items[i];
        &&& j < destinations.len()
        &&& valid_chunk(c.offset, c.data@.len(), destinations[j as int].chunk_size, destinations[j as int].size)
    }
}

/// The plain view of queued items: job and (offset, bytes).
pub open spec fn items_view(items: Seq<(usize, Chunk)>) -> Seq<(usize, (u64, Seq<u8>))> {
    items.map_values(|p: (usize, Chunk)| (p.0, (p.1.offset, p.1.data@)))
}

pub open spec fn models_of<S: Storage>(d: Seq<Backup<S>>) -> Seq<BackupModel> {
    d.map_values(|b: Backup<S>| b.model())
}

/// Item `i` of `items` goes to storage when the items are processed in order.
pub open spec fn item_writes<S: Storage>(d: Seq<Backup<S>>, items: Seq<(usize, (u64, Seq<u8>))>, i: int) -> bool {
    let prev = run_models(d, models_of(d), items.take(i));
    let (j, c) = items[i];
    d[j as int].writes(prev[j as int], c)
}

/// Hand each queued chunk, in order, to its job's backup; stops at the
/// first error. Returns how many chunks went to storage.
pub fn run<S: Storage>(destinations: &mut Vec<Backup<S>>, items: &Vec<(usize, Chunk)>) -> (r: Result<usize, String>)
    requires
        forall|j: int| 0 <= j < old(destinations)@.len() ==> (#[trigger] old(destinations)@[j]).wf(),
        items_fit(old(destinations)@, items@),
    ensures
        final(destinations)@.len() == old(destinations)@.len(),
        forall|j: int| 0 <= j < final(destinations)@.len() ==> (#[trigger] final(destinations)@[j]).wf()
            && final(destinations)@[j].same_setup(&old(destinations)@[j]),
        r is Ok ==> models_of(final(destinations)@) == run_models(old(destinations)@, models_of(old(destinations)@), items_view(items@))
            && r->Ok_0 == run_writes(old(destinations)@, models_of(old(destinations)@), items_view(items@)),
        r is Err ==> exists|i: int| 0 <= i < items@.len() && models_of(final(destinations)@) == run_models(
            old(destinations)@,
            models_of(old(destinations)@),
            items_view(items@).take(i + 1),
        ) && item_writes(old(destinations)@, items_view(items@), i),
        (forall|i: int| 0 <= i < items@.len() ==> !item_writes(old(destinations)@, items_view(items@), i)) ==> r is Ok,
{
    let ghost d = old(destinations)@;
    let ghost iv = items_view(items@);
    let mut written: usize = 0;
    let mut i: usize = 0;
    proof {
        assert(iv.take(0) =~= Seq::<(usize, (u64, Seq<u8>))>::empty());
        assert(models_of(destinations@) =~= models_of(d));
    }
    while i < items.len()
        invariant
            i <= items@.len(),
            written <= i,
            d == old(destinations)@,
            iv == items_view(items@),
            destinations@.len() == d.len(),
            forall|j: int| 0 <= j < destinations@.len() ==> (#[trigger] destinations@[j]).wf()
                && destinations@[j].same_setup(&d[j]),
            items_fit(d, items@),
            models_of(destinations@) == run_models(d, models_of(d), iv.take(i as int)),
            written == run_writes(d, models_of(d), iv.take(i as int)),
        decreases items@.len() - i,
    {
        let job = items[i].0;
        let chunk = &items[i].1;
        let ghost before = destinations@;
        let ghost prev = run_models(d, models_of(d), iv.take(i as int));
        proof {
            assert(items_fit(d, items@));
            assert(iv[i as int] == (job, (chunk.offset, chunk.data@)));
            assert(iv.take(i + 1).drop_last() =~= iv.take(i as int));
            assert(iv.take(i + 1).last() == iv[i as int]);
            assert(prev[job as int] == before[job as int].model());
            assert(d[job as int].step(prev[job as int], iv[i as int].1) == before[job as int].step(prev[job as int], iv[i as int].1));
            assert(d[job as int].writes(prev[job as int], iv[i as int].1) == before[job as int].writes(prev[job as int], iv[i as int].1));
        }
        let result = destinations[job].process_chunk(chunk);
        proof {
            assert forall|j: int| 0 <= j < destinations@.len() && j != job implies destinations@[j] == before[j] by {}
            assert(models_of(destinations@) =~= run_models(d, models_of(d), iv.take(i + 1)));
        }
        match result {
            Ok(true) => {
                written = written + 1;
            },
            Ok(false) => {},
            Err(e) => {
                proof {
                    assert(item_writes(d, iv, i as int));
                }
                return Err(e);
            },
        }
        i = i + 1;
    }
    proof {
        assert(iv.take(i as int) =~= iv);
    }
    Ok(written)
}

} // verus!
