use vstd::prelude::*;
use crate::codec::RESERVED;

verus! {

/// Marks a chunk that no layer holds.
pub const NO_LAYER: usize = usize::MAX;

/// The index of a single store: for each chunk, where in the store it lies.
pub struct DedicatedIndex {
    chunk_offsets: Vec<u64>,
}

impl DedicatedIndex {
    /// For each chunk, its offset in the store, if the store holds it.
    pub closed spec fn view(&self) -> Seq<Option<u64>> {
        self.chunk_offsets@.map_values(|o: u64| if o == RESERVED { None } else { Some(o) })
    }

    /// An index of `chunk_count` chunks, none of them held.
    pub fn new(chunk_count: usize) -> (r: Self)
        ensures
            r@ == Seq::new(chunk_count as nat, |k: int| None::<u64>),
    {
        let mut chunk_offsets: Vec<u64> = Vec::with_capacity(chunk_count);
        let mut i: usize = 0;
        while i < chunk_count
            invariant
                i <= chunk_count,
                chunk_offsets@ == Seq::new(i as nat, |k: int| RESERVED),
            decreases chunk_count - i,
        {
            chunk_offsets.push(RESERVED);
            assert(chunk_offsets@ =~= Seq::new((i + 1) as nat, |k: int| RESERVED));
            i = i + 1;
        }
        let r = DedicatedIndex { chunk_offsets };
        assert(r@ =~= Seq::new(chunk_count as nat, |k: int| None::<u64>));
        r
    }

    /// Record where chunk `chunk_number` lies; the reserved value is never
    /// an offset.
    pub fn replace(&mut self, chunk_number: usize, offset: u64)
        requires
            chunk_number < old(self)@.len(),
            offset != RESERVED,
        ensures
            final(self)@ == old(self)@.update(chunk_number as int, Some(offset)),
    {
        self.chunk_offsets.set(chunk_number, offset);
        assert(self@ =~= old(self)@.update(chunk_number as int, Some(offset)));
    }

    /// Where chunk `chunk_number` lies, if the store holds it.
    pub fn lookup(&self, chunk_number: usize) -> (r: Option<u64>)
        requires
            chunk_number < self@.len(),
        ensures
            r == self@[chunk_number as int],
    {
        let o = self.chunk_offsets[chunk_number];
        if o == RESERVED {
            None
        } else {
            Some(o)
        }
    }
}

/// Number of chunks that no layer holds.
pub open spec fn holes(layers: Seq<usize>) -> nat
    decreases layers.len(),
{
    if layers.len() == 0 {
        0
    } else {
        holes(layers.drop_last()) + if layers.last() == NO_LAYER { 1nat } else { 0nat }
    }
}

proof fn lemma_holes_update(layers: Seq<usize>, i: int, v: usize)
    requires
        0 <= i < layers.len(),
        layers[i] == NO_LAYER,
        v != NO_LAYER,
    ensures
        holes(layers.update(i, v)) + 1 == holes(layers),
    decreases layers.len(),
{
    let u = layers.update(i, v);
    if i == layers.len() - 1 {
        assert(u.drop_last() =~= layers.drop_last());
    } else {
        assert(u.drop_last() =~= layers.drop_last().update(i, v));
        lemma_holes_update(layers.drop_last(), i, v);
    }
}

proof fn lemma_holes_update_owned(layers: Seq<usize>, i: int, v: usize)
    requires
        0 <= i < layers.len(),
        layers[i] != NO_LAYER,
        v != NO_LAYER,
    ensures
        holes(layers.update(i, v)) == holes(layers),
    decreases layers.len(),
{
    let u = layers.update(i, v);
    if i == layers.len() - 1 {
        assert(u.drop_last() =~= layers.drop_last());
    } else {
        assert(u.drop_last() =~= layers.drop_last().update(i, v));
        lemma_holes_update_owned(layers.drop_last(), i, v);
    }
}

proof fn lemma_no_holes(layers: Seq<usize>)
    ensures
        (holes(layers) == 0) == (forall|k: int| 0 <= k < layers.len() ==> layers[k] != NO_LAYER),
    decreases layers.len(),
{
    if layers.len() > 0 {
        lemma_no_holes(layers.drop_last());
        if holes(layers) == 0 {
            assert forall|k: int| 0 <= k < layers.len() implies layers[k] != NO_LAYER by {
                if k < layers.len() - 1 {
                    assert(layers.drop_last()[k] == layers[k]);
                }
            }
        } else if holes(layers.drop_last()) > 0 {
            let k = choose|k: int| 0 <= k < layers.drop_last().len() && layers.drop_last()[k] == NO_LAYER;
            assert(layers[k] == NO_LAYER);
        }
    }
}

proof fn lemma_all_holes(n: nat)
    ensures
        holes(Seq::new(n, |k: int| NO_LAYER)) == n,
    decreases n,
{
    if n > 0 {
        assert(Seq::new(n, |k: int| NO_LAYER).drop_last() =~= Seq::new((n - 1) as nat, |k: int| NO_LAYER));
        lemma_all_holes((n - 1) as nat);
    }
}

/// One store's view of a shared index.
#[derive(Clone, Copy, PartialEq, Eq, Structural, Debug)]
pub struct SharedIndexHandle {
    layer: usize,
}

impl SharedIndexHandle {
    pub closed spec fn spec_layer(&self) -> usize {
        self.layer
    }

    pub fn layer_number(&self) -> (r: usize)
        ensures
            r == self.spec_layer(),
    {
        self.layer
    }
}

/// For each chunk of a layered backup, the highest-priority layer that
/// holds it and where. Layers are added from the top down; the top layer is
/// layer 0 and wins over all others.
pub struct SharedIndex {
    layer_count: usize,
    hole_count: usize,
    chunk_layers: Vec<usize>,
    chunk_offsets: Vec<u64>,
}

impl SharedIndex {
    /// For each chunk, the owning layer and the chunk's offset in it.
    pub closed spec fn view(&self) -> Seq<Option<(usize, u64)>> {
        Seq::new(
            self.chunk_layers@.len(),
            |k: int| if self.chunk_layers@[k] == NO_LAYER { None } else { Some((self.chunk_layers@[k], self.chunk_offsets@[k])) },
        )
    }

    pub closed spec fn spec_layer_count(&self) -> usize {
        self.layer_count
    }

    pub closed spec fn wf(&self) -> bool {
        &&& self.chunk_layers@.len() == self.chunk_offsets@.len()
        &&& self.hole_count == holes(self.chunk_layers@)
        &&& forall|k: int| 0 <= k < self.chunk_layers@.len() ==> #[trigger] self.chunk_layers@[k] == NO_LAYER
            || self.chunk_layers@[k] < self.layer_count
    }

    /// An index of `chunk_count` chunks with no layers yet.
    pub fn new(chunk_count: usize) -> (r: Self)
        ensures
            r.wf(),
            r@ == Seq::new(chunk_count as nat, |k: int| None::<(usize, u64)>),
            r.spec_layer_count() == 0,
    {
        let mut chunk_layers: Vec<usize> = Vec::with_capacity(chunk_count);
        let mut chunk_offsets: Vec<u64> = Vec::with_capacity(chunk_count);
        let mut i: usize = 0;
        while i < chunk_count
            invariant
                i <= chunk_count,
                chunk_layers@ == Seq::new(i as nat, |k: int| NO_LAYER),
                chunk_offsets@ == Seq::new(i as nat, |k: int| RESERVED),
            decreases chunk_count - i,
        {
            chunk_layers.push(NO_LAYER);
            chunk_offsets.push(RESERVED);
            assert(chunk_layers@ =~= Seq::new((i + 1) as nat, |k: int| NO_LAYER));
            assert(chunk_offsets@ =~= Seq::new((i + 1) as nat, |k: int| RESERVED));
            i = i + 1;
        }
        proof {
            lemma_all_holes(chunk_count as nat);
        }
        let r = SharedIndex { layer_count: 0, hole_count: chunk_count, chunk_layers, chunk_offsets };
        assert(r@ =~= Seq::new(chunk_count as nat, |k: int| None::<(usize, u64)>));
        r
    }

    /// A chunk's owning layer is one of the layers added.
    pub proof fn lemma_owner_is_a_layer(&self, k: int)
        requires
            self.wf(),
            0 <= k < self@.len(),
            self@[k] is Some,
        ensures
            self@[k]->Some_0.0 < self.spec_layer_count(),
    {
        assert(self.chunk_layers@[k] != NO_LAYER);
    }

    /// Number of chunks.
    pub fn len(&self) -> (r: usize)
        requires
            self.wf(),
        ensures
            r == self@.len(),
    {
        self.chunk_layers.len()
    }

    /// Number of layers added so far.
    pub fn layer_count(&self) -> (r: usize)
        ensures
            r == self.spec_layer_count(),
    {
        self.layer_count
    }

    /// The handle of the next layer down.
    pub fn add_layer(&mut self, chunk_count: usize) -> (r: SharedIndexHandle)
        requires
            old(self).wf(),
            chunk_count == old(self)@.len(),
            old(self).spec_layer_count() < NO_LAYER - 1,
        ensures
            final(self).wf(),
            final(self)@ == old(self)@,
            r.spec_layer() == old(self).spec_layer_count(),
            final(self).spec_layer_count() == old(self).spec_layer_count() + 1,
    {
        let handle = SharedIndexHandle { layer: self.layer_count };
        self.layer_count = self.layer_count + 1;
        handle
    }

    /// The layer that holds chunk `chunk_number`, if any does.
    pub fn lookup_layer(&self, chunk_number: usize) -> (r: Option<usize>)
        requires
            self.wf(),
            chunk_number < self@.len(),
        ensures
            r == match self@[chunk_number as int] {
                Some(p) => Some(p.0),
                None => None::<usize>,
            },
    {
        let l = self.chunk_layers[chunk_number];
        if l == NO_LAYER {
            None
        } else {
            Some(l)
        }
    }

    /// Every chunk is held by some layer.
    pub fn is_complete(&self) -> (r: bool)
        requires
            self.wf(),
        ensures
            r == forall|k: int| 0 <= k < self@.len() ==> self@[k] is Some,
    {
        proof {
            lemma_no_holes(self.chunk_layers@);
            assert forall|k: int| 0 <= k < self@.len() implies (self@[k] is Some) == (self.chunk_layers@[k] != NO_LAYER) by {}
            if self.hole_count != 0 {
                let k = choose|k: int| 0 <= k < self.chunk_layers@.len() && !(self.chunk_layers@[k] != NO_LAYER);
                assert(!(self@[k] is Some));
            }
        }
        self.hole_count == 0
    }

    /// Record, for the handle's layer, where chunk `chunk_number` lies. It
    /// takes effect only where no higher layer already holds the chunk.
    pub fn replace(&mut self, handle: &SharedIndexHandle, chunk_number: usize, offset: u64)
        requires
            old(self).wf(),
            chunk_number < old(self)@.len(),
            offset != RESERVED,
            handle.spec_layer() < old(self).spec_layer_count(),
        ensures
            final(self).wf(),
            final(self).spec_layer_count() == old(self).spec_layer_count(),
            final(self)@ == match old(self)@[chunk_number as int] {
                Some(p) => if p.0 >= handle.spec_layer() {
                    old(self)@.update(chunk_number as int, Some((handle.spec_layer(), offset)))
                } else {
                    old(self)@
                },
                None => old(self)@.update(chunk_number as int, Some((handle.spec_layer(), offset))),
            },
    {
        let current = self.chunk_layers[chunk_number];
        if current >= handle.layer {
            proof {
                if current == NO_LAYER {
                    lemma_holes_update(self.chunk_layers@, chunk_number as int, handle.layer);
                } else {
                    lemma_holes_update_owned(self.chunk_layers@, chunk_number as int, handle.layer);
                }
            }
            if current == NO_LAYER {
                self.hole_count = self.hole_count - 1;
            }
            self.chunk_layers.set(chunk_number, handle.layer);
            self.chunk_offsets.set(chunk_number, offset);
            assert(self@ =~= old(self)@.update(chunk_number as int, Some((handle.spec_layer(), offset))));
        }
    }

    /// Record a whole layer's index for the handle's layer: each chunk it
    /// holds takes effect where no higher layer holds that chunk.
    pub fn load_layer(&mut self, handle: &SharedIndexHandle, locations: &Vec<Option<u64>>)
        requires
            old(self).wf(),
            locations@.len() == old(self)@.len(),
            handle.spec_layer() < old(self).spec_layer_count(),
            forall|k: int| 0 <= k < locations@.len() ==> locations@[k] != Some(RESERVED),
        ensures
            final(self).wf(),
            final(self).spec_layer_count() == old(self).spec_layer_count(),
            final(self)@.len() == old(self)@.len(),
            forall|k: int| 0 <= k < old(self)@.len() ==> #[trigger] final(self)@[k] == match (old(self)@[k], locations@[k]) {
                (Some(p), Some(o)) => if p.0 >= handle.spec_layer() { Some((handle.spec_layer(), o)) } else { Some(p) },
                (None, Some(o)) => Some((handle.spec_layer(), o)),
                (p, None) => p,
            },
    {
        let mut k: usize = 0;
        while k < locations.len()
            invariant
                self.wf(),
                k <= locations@.len(),
                locations@.len() == old(self)@.len(),
                self@.len() == old(self)@.len(),
                self.spec_layer_count() == old(self).spec_layer_count(),
                handle.spec_layer() < old(self).spec_layer_count(),
                forall|j: int| 0 <= j < locations@.len() ==> locations@[j] != Some(RESERVED),
                forall|j: int| 0 <= j < old(self)@.len() ==> #[trigger] self@[j] == if j < k {
                    match (old(self)@[j], locations@[j]) {
                        (Some(p), Some(o)) => if p.0 >= handle.spec_layer() { Some((handle.spec_layer(), o)) } else { Some(p) },
                        (None, Some(o)) => Some((handle.spec_layer(), o)),
                        (p, None) => p,
                    }
                } else {
                    old(self)@[j]
                },
            decreases locations@.len() - k,
        {
            match locations[k] {
                Some(o) => {
                    assert(locations@[k as int] != Some(RESERVED));
                    self.replace(handle, k, o);
                },
                None => {},
            }
            k = k + 1;
        }
    }

    /// Record a layer that holds every chunk at a predictable place, as a
    /// raw image does: chunk `k` at `k * chunk_size`.
    pub fn load_full_layer(&mut self, handle: &SharedIndexHandle, chunk_size: u64)
        requires
            old(self).wf(),
            handle.spec_layer() < old(self).spec_layer_count(),
            old(self)@.len() * chunk_size < RESERVED,
        ensures
            final(self).wf(),
            final(self).spec_layer_count() == old(self).spec_layer_count(),
            final(self)@.len() == old(self)@.len(),
            forall|k: int| 0 <= k < old(self)@.len() ==> #[trigger] final(self)@[k] == match old(self)@[k] {
                Some(p) => if p.0 >= handle.spec_layer() { Some((handle.spec_layer(), (k * chunk_size) as u64)) } else { Some(p) },
                None => Some((handle.spec_layer(), (k * chunk_size) as u64)),
            },
    {
        let n = self.len();
        let mut locations: Vec<Option<u64>> = Vec::with_capacity(n);
        let mut k: usize = 0;
        while k < n
            invariant
                k <= n,
                n == old(self)@.len(),
                n * chunk_size < RESERVED,
                locations@.len() == k,
                forall|j: int| 0 <= j < k ==> #[trigger] locations@[j] == Some((j * chunk_size) as u64),
            decreases n - k,
        {
            assert(k * chunk_size <= n * chunk_size) by (nonlinear_arith)
                requires
                    k < n,
                    chunk_size >= 0,
            ;
            let at = k as u64 * chunk_size;
            locations.push(Some(at));
            k = k + 1;
        }
        assert forall|j: int| 0 <= j < locations@.len() implies locations@[j] != Some(RESERVED) by {
            assert(j * chunk_size <= n * chunk_size) by (nonlinear_arith)
                requires
                    j < n,
                    j >= 0,
                    chunk_size >= 0,
            ;
        }
        self.load_layer(handle, &locations);
    }

    /// Where chunk `chunk_number` lies in the handle's layer. Only the top
    /// layer may ask about a chunk it does not hold.
    pub fn lookup(&self, handle: &SharedIndexHandle, chunk_number: usize) -> (r: Option<u64>)
        requires
            self.wf(),
            chunk_number < self@.len(),
            handle.spec_layer() == 0 || (self@[chunk_number as int] is Some && self@[chunk_number as int]->Some_0.0
                == handle.spec_layer()),
        ensures
            r == match self@[chunk_number as int] {
                Some(p) => if p.0 == handle.spec_layer() { Some(p.1) } else { None::<u64> },
                None => None::<u64>,
            },
    {
        if self.chunk_layers[chunk_number] == handle.layer {
            Some(self.chunk_offsets[chunk_number])
        } else {
            None
        }
    }
}

} // verus!
