//! Layers implement user behavior: an application is a stack of layers and
//! a stack of overlays. Layers are attached and detached on request; the
//! requests take effect when the pending ones are processed, in the order in
//! which they were made.
use crate::free_queue::{drain_ids, id_queue_contents, id_queue_new, id_queue_push};
use scc::Queue;
use vstd::std_specs::iter::IteratorSpec;
use vstd::prelude::*;

verus! {

pub type LayerID = u32;

/// What the layer manager calls on a layer when it enters or leaves a stack.
pub trait LayerHooks {
    fn on_attach(&mut self);

    fn on_detach(&mut self);
}

/// A layer in a stack, with the identifier it was given when attached.
pub struct LayerContainer<L> {
    pub layer: L,
    pub id: LayerID,
}

/// The identifiers of a stack, in order.
pub open spec fn stack_ids<L>(s: Seq<LayerContainer<L>>) -> Seq<LayerID> {
    s.map_values(|c: LayerContainer<L>| c.id)
}

/// The identifiers of pending attachments, in order.
pub open spec fn pending_ids<L>(s: Seq<(LayerID, L)>) -> Seq<LayerID> {
    s.map_values(|p: (LayerID, L)| p.0)
}

/// The containers of `s` whose identifier is not in `ids`.
pub open spec fn without_ids<L>(s: Seq<LayerContainer<L>>, ids: Seq<LayerID>) -> Seq<LayerContainer<L>> {
    s.filter(|c: LayerContainer<L>| !ids.contains(c.id))
}

/// The next identifier after `id`, wrapping around.
pub open spec fn next_id(id: LayerID) -> LayerID {
    if id == u32::MAX {
        0
    } else {
        (id + 1) as LayerID
    }
}

/// The layer and overlay stacks of an application, with the attachments and
/// detachments that were requested and not yet processed. Detachments wait
/// in `scc::Queue`s of identifiers; layers waiting to be attached wait in
/// `Vec`s, since an `scc::Queue` lends its entries out by reference and only
/// unsafe code could move a layer out of one.
pub struct LayerManager<L> {
    layers: Vec<LayerContainer<L>>,
    overlays: Vec<LayerContainer<L>>,
    layers_to_attach: Vec<(LayerID, L)>,
    overlays_to_attach: Vec<(LayerID, L)>,
    next_layer_id: LayerID,
    layers_to_detach: Queue<LayerID>,
    overlays_to_detach: Queue<LayerID>,
}

impl<L> LayerManager<L> {
    pub closed spec fn spec_layers(&self) -> Seq<LayerContainer<L>> {
        self.layers@
    }

    pub closed spec fn spec_overlays(&self) -> Seq<LayerContainer<L>> {
        self.overlays@
    }

    pub closed spec fn spec_layers_to_attach(&self) -> Seq<(LayerID, L)> {
        self.layers_to_attach@
    }

    pub closed spec fn spec_overlays_to_attach(&self) -> Seq<(LayerID, L)> {
        self.overlays_to_attach@
    }

    pub closed spec fn spec_next_layer_id(&self) -> LayerID {
        self.next_layer_id
    }

    pub closed spec fn spec_layers_to_detach(&self) -> Seq<LayerID> {
        id_queue_contents(self.layers_to_detach)
    }

    pub closed spec fn spec_overlays_to_detach(&self) -> Seq<LayerID> {
        id_queue_contents(self.overlays_to_detach)
    }

    /// An empty manager; the first identifier it gives is 0.
    pub fn new() -> (m: Self)
        ensures
            m.spec_layers().len() == 0,
            m.spec_overlays().len() == 0,
            m.spec_layers_to_attach().len() == 0,
            m.spec_overlays_to_attach().len() == 0,
            m.spec_layers_to_detach().len() == 0,
            m.spec_overlays_to_detach().len() == 0,
            m.spec_next_layer_id() == 0,
    {
        LayerManager {
            layers: Vec::new(),
            overlays: Vec::new(),
            layers_to_attach: Vec::new(),
            overlays_to_attach: Vec::new(),
            next_layer_id: 0,
            layers_to_detach: id_queue_new(),
            overlays_to_detach: id_queue_new(),
        }
    }

    /// Take the next identifier.
    fn take_id(&mut self) -> (id: LayerID)
        ensures
            id == old(self).spec_next_layer_id(),
            final(self).spec_next_layer_id() == next_id(id),
            final(self).spec_layers() == old(self).spec_layers(),
            final(self).spec_overlays() == old(self).spec_overlays(),
            final(self).spec_layers_to_attach() == old(self).spec_layers_to_attach(),
            final(self).spec_overlays_to_attach() == old(self).spec_overlays_to_attach(),
            final(self).spec_layers_to_detach() == old(self).spec_layers_to_detach(),
            final(self).spec_overlays_to_detach() == old(self).spec_overlays_to_detach(),
    {
        let id = self.next_layer_id;
        self.next_layer_id = id.wrapping_add(1);
        id
    }

    /// Request that `layer` be attached on top of the layer stack; returns the
    /// identifier it is given.
    pub fn attach_layer(&mut self, layer: L) -> (id: LayerID)
        ensures
            id == old(self).spec_next_layer_id(),
            final(self).spec_next_layer_id() == next_id(id),
            final(self).spec_layers_to_attach() == old(self).spec_layers_to_attach().push((id, layer)),
            final(self).spec_layers() == old(self).spec_layers(),
            final(self).spec_overlays() == old(self).spec_overlays(),
            final(self).spec_overlays_to_attach() == old(self).spec_overlays_to_attach(),
            final(self).spec_layers_to_detach() == old(self).spec_layers_to_detach(),
            final(self).spec_overlays_to_detach() == old(self).spec_overlays_to_detach(),
    {
        let id = self.take_id();
        self.layers_to_attach.push((id, layer));
        id
    }

    /// Request that `overlay` be attached on top of the overlay stack; returns
    /// the identifier it is given.
    pub fn attach_overlays(&mut self, overlay: L) -> (id: LayerID)
        ensures
            id == old(self).spec_next_layer_id(),
            final(self).spec_next_layer_id() == next_id(id),
            final(self).spec_overlays_to_attach() == old(self).spec_overlays_to_attach().push((id, overlay)),
            final(self).spec_layers() == old(self).spec_layers(),
            final(self).spec_overlays() == old(self).spec_overlays(),
            final(self).spec_layers_to_attach() == old(self).spec_layers_to_attach(),
            final(self).spec_layers_to_detach() == old(self).spec_layers_to_detach(),
            final(self).spec_overlays_to_detach() == old(self).spec_overlays_to_detach(),
    {
        let id = self.take_id();
        self.overlays_to_attach.push((id, overlay));
        id
    }

    /// Request that the layer `layer_id` be detached.
    pub fn detach_layer(&mut self, layer_id: &LayerID)
        ensures
            final(self).spec_layers_to_detach() == old(self).spec_layers_to_detach().push(*layer_id),
            final(self).spec_layers() == old(self).spec_layers(),
            final(self).spec_overlays() == old(self).spec_overlays(),
            final(self).spec_layers_to_attach() == old(self).spec_layers_to_attach(),
            final(self).spec_overlays_to_attach() == old(self).spec_overlays_to_attach(),
            final(self).spec_next_layer_id() == old(self).spec_next_layer_id(),
            final(self).spec_overlays_to_detach() == old(self).spec_overlays_to_detach(),
    {
        id_queue_push(&mut self.layers_to_detach, *layer_id);
    }

    /// Request that the overlay `layer_id` be detached.
    pub fn detach_overlay(&mut self, layer_id: &LayerID)
        ensures
            final(self).spec_overlays_to_detach() == old(self).spec_overlays_to_detach().push(*layer_id),
            final(self).spec_layers() == old(self).spec_layers(),
            final(self).spec_overlays() == old(self).spec_overlays(),
            final(self).spec_layers_to_attach() == old(self).spec_layers_to_attach(),
            final(self).spec_overlays_to_attach() == old(self).spec_overlays_to_attach(),
            final(self).spec_next_layer_id() == old(self).spec_next_layer_id(),
            final(self).spec_layers_to_detach() == old(self).spec_layers_to_detach(),
    {
        id_queue_push(&mut self.overlays_to_detach, *layer_id);
    }

    /// The layer stack, bottom first.
    pub fn layers(&self) -> (r: &Vec<LayerContainer<L>>)
        ensures
            r@ == self.spec_layers(),
    {
        &self.layers
    }

    /// The overlay stack, bottom first.
    pub fn overlays(&self) -> (r: &Vec<LayerContainer<L>>)
        ensures
            r@ == self.spec_overlays(),
    {
        &self.overlays
    }

    /// Iterate over the layer stack, bottom first.
    pub fn layers_iter(&self) -> (r: std::slice::Iter<'_, LayerContainer<L>>)
        ensures
            r.remaining() == self.spec_layers().as_ref(),
    {
        proof {
            broadcast use vstd::std_specs::slice::axiom_spec_slice_iter;
        }
        self.layers.as_slice().iter()
    }

    /// Iterate over the overlay stack, bottom first.
    pub fn overlays_iter(&self) -> (r: std::slice::Iter<'_, LayerContainer<L>>)
        ensures
            r.remaining() == self.spec_overlays().as_ref(),
    {
        proof {
            broadcast use vstd::std_specs::slice::axiom_spec_slice_iter;
        }
        self.overlays.as_slice().iter()
    }

    /// The layer stack, to update its layers in place.
    pub fn layers_mut(&mut self) -> (r: &mut Vec<LayerContainer<L>>)
        ensures
            r@ == old(self).spec_layers(),
            final(self).spec_layers() == final(r)@,
            final(self).spec_overlays() == old(self).spec_overlays(),
            final(self).spec_layers_to_attach() == old(self).spec_layers_to_attach(),
            final(self).spec_overlays_to_attach() == old(self).spec_overlays_to_attach(),
            final(self).spec_next_layer_id() == old(self).spec_next_layer_id(),
            final(self).spec_layers_to_detach() == old(self).spec_layers_to_detach(),
            final(self).spec_overlays_to_detach() == old(self).spec_overlays_to_detach(),
    {
        &mut self.layers
    }

    /// The overlay stack, to update its overlays in place.
    pub fn overlays_mut(&mut self) -> (r: &mut Vec<LayerContainer<L>>)
        ensures
            r@ == old(self).spec_overlays(),
            final(self).spec_overlays() == final(r)@,
            final(self).spec_layers() == old(self).spec_layers(),
            final(self).spec_layers_to_attach() == old(self).spec_layers_to_attach(),
            final(self).spec_overlays_to_attach() == old(self).spec_overlays_to_attach(),
            final(self).spec_next_layer_id() == old(self).spec_next_layer_id(),
            final(self).spec_layers_to_detach() == old(self).spec_layers_to_detach(),
            final(self).spec_overlays_to_detach() == old(self).spec_overlays_to_detach(),
    {
        &mut self.overlays
    }
}

/// Whether `x` is one of `v`.
fn contains_id(v: &Vec<LayerID>, x: LayerID) -> (r: bool)
    ensures
        r == v@.contains(x),
{
    let mut i: usize = 0;
    while i < v.len()
        invariant
            i <= v@.len(),
            forall|j: int| 0 <= j < i ==> v@[j] != x,
        decreases v@.len() - i,
    {
        if v[i] == x {
            proof {
                assert(v@[i as int] == x);
            }
            return true;
        }
        i = i + 1;
    }
    false
}

/// Move every pending attachment onto `stack`, in request order, calling
/// `on_attach` on each.
fn attach_pending<L: LayerHooks>(stack: &mut Vec<LayerContainer<L>>, pending: &mut Vec<(LayerID, L)>)
    ensures
        final(pending)@.len() == 0,
        final(stack)@.len() == old(stack)@.len() + old(pending)@.len(),
        final(stack)@.subrange(0, old(stack)@.len() as int) == old(stack)@,
        stack_ids(final(stack)@) == stack_ids(old(stack)@) + pending_ids(old(pending)@),
{
    let ghost s0 = stack@;
    let ghost p0 = pending@;
    let mut work: Vec<(LayerID, L)> = Vec::new();
    std::mem::swap(&mut work, pending);
    let total: usize = work.len();
    let mut k: usize = 0;
    while work.len() > 0
        invariant
            p0.len() == total,
            k + work@.len() == p0.len(),
            work@ == p0.subrange(k as int, p0.len() as int),
            pending@.len() == 0,
            stack@.len() == s0.len() + k,
            stack@.subrange(0, s0.len() as int) == s0,
            stack_ids(stack@) == stack_ids(s0) + pending_ids(p0).take(k as int),
        decreases work@.len(),
    {
        let (id, mut layer) = work.remove(0);
        layer.on_attach();
        let ghost before = stack@;
        stack.push(LayerContainer { layer, id });
        proof {
            assert(p0[k as int].0 == id);
            assert(pending_ids(p0).take(k + 1) =~= pending_ids(p0).take(k as int).push(id));
            assert(stack_ids(stack@) =~= stack_ids(before).push(id));
            assert(stack@.subrange(0, s0.len() as int) =~= before.subrange(0, s0.len() as int));
            assert(work@ =~= p0.subrange(k + 1, p0.len() as int));
        }
        k = k + 1;
    }
    proof {
        assert(pending_ids(p0).take(k as int) =~= pending_ids(p0));
    }
}

/// Process the detach requests in order: for each, call `on_detach` on the
/// matching containers of `stack` (the first one only when `first_only`),
/// then drop from `stack` every container whose identifier was requested.
fn detach_pending<L: LayerHooks>(stack: &mut Vec<LayerContainer<L>>, requests: &mut Queue<LayerID>, first_only: bool)
    ensures
        id_queue_contents(*final(requests)).len() == 0,
        final(stack)@ == without_ids(old(stack)@, id_queue_contents(*old(requests))),
{
    let ghost s0 = stack@;
    let ghost r0 = id_queue_contents(*requests);
    let to_detach = drain_ids(requests);
    let mut k: usize = 0;
    while k < to_detach.len()
        invariant
            to_detach@ == r0,
            id_queue_contents(*requests).len() == 0,
            k <= to_detach@.len(),
            stack@.len() == s0.len(),
            stack_ids(stack@) == stack_ids(s0),
            forall|i: int| 0 <= i < s0.len() && !r0.take(k as int).contains(s0[i].id) ==> #[trigger] stack@[i] == s0[i],
        decreases to_detach@.len() - k,
    {
        let layer_id = to_detach[k];
        let mut i: usize = 0;
        while i < stack.len()
            invariant
                to_detach@ == r0,
                k < r0.len(),
                layer_id == r0[k as int],
                i <= stack@.len(),
                stack@.len() == s0.len(),
                stack_ids(stack@) == stack_ids(s0),
                forall|j: int| 0 <= j < s0.len() && !r0.take(k + 1).contains(s0[j].id) ==> #[trigger] stack@[j] == s0[j],
            decreases stack@.len() - i,
        {
            let matches: bool = stack[i].id == layer_id;
            if matches {
                let ghost before = stack@;
                let c = &mut stack[i];
                c.layer.on_detach();
                proof {
                    assert(stack_ids(before)[i as int] == stack_ids(s0)[i as int]);
                    assert(r0.take(k + 1)[k as int] == layer_id);
                    assert(stack_ids(stack@) =~= stack_ids(before));
                }
                if first_only {
                    break;
                }
            }
            i = i + 1;
        }
        proof {
            assert forall|j: int| 0 <= j < s0.len() && !r0.take(k + 1).contains(s0[j].id) implies #[trigger] stack@[j] == s0[j] by {
            }
            assert forall|x: LayerID| r0.take(k as int).contains(x) implies r0.take(k + 1).contains(x) by {
                let j = choose|j: int| 0 <= j < k && r0.take(k as int)[j] == x;
                assert(r0.take(k + 1)[j] == x);
            }
        }
        k = k + 1;
    }
    proof {
        assert(r0.take(k as int) =~= r0);
    }
    let ghost mid = stack@;
    let ghost keep = |c: LayerContainer<L>| !r0.contains(c.id);
    let mut work: Vec<LayerContainer<L>> = Vec::new();
    std::mem::swap(&mut work, stack);
    let total: usize = work.len();
    let mut n: usize = 0;
    proof {
        assert(s0.take(0) =~= Seq::<LayerContainer<L>>::empty());
        assert(Seq::<LayerContainer<L>>::empty().filter(keep) =~= Seq::<LayerContainer<L>>::empty());
    }
    while work.len() > 0
        invariant
            to_detach@ == r0,
            keep == (|c: LayerContainer<L>| !r0.contains(c.id)),
            n + work@.len() == s0.len(),
            s0.len() == total,
            mid.len() == s0.len(),
            work@ == mid.subrange(n as int, mid.len() as int),
            stack_ids(mid) == stack_ids(s0),
            forall|i: int| 0 <= i < s0.len() && !r0.contains(s0[i].id) ==> #[trigger] mid[i] == s0[i],
            stack@ == s0.take(n as int).filter(keep),
        decreases work@.len(),
    {
        let c = work.remove(0);
        let ghost before = stack@;
        proof {
            assert(c == mid[n as int]);
            assert(stack_ids(mid)[n as int] == stack_ids(s0)[n as int]);
            assert(c.id == s0[n as int].id);
            reveal_with_fuel(Seq::filter, 1);
            assert(s0.take(n + 1).drop_last() =~= s0.take(n as int));
            assert(s0.take(n + 1).last() == s0[n as int]);
        }
        if !contains_id(&to_detach, c.id) {
            proof {
                assert(c == s0[n as int]);
            }
            stack.push(c);
        }
        proof {
            assert(work@ =~= mid.subrange(n + 1, mid.len() as int));
        }
        n = n + 1;
    }
    proof {
        assert(s0.take(n as int) =~= s0);
    }
}

impl<L: LayerHooks> LayerManager<L> {
    /// Attach the pending layers on top of the layer stack, in request order,
    /// calling `on_attach` on each.
    pub fn attach_pending_layers(&mut self)
        ensures
            final(self).spec_layers_to_attach().len() == 0,
            final(self).spec_layers().len() == old(self).spec_layers().len() + old(self).spec_layers_to_attach().len(),
            final(self).spec_layers().subrange(0, old(self).spec_layers().len() as int) == old(self).spec_layers(),
            stack_ids(final(self).spec_layers()) == stack_ids(old(self).spec_layers()) + pending_ids(old(self).spec_layers_to_attach()),
            final(self).spec_overlays() == old(self).spec_overlays(),
            final(self).spec_overlays_to_attach() == old(self).spec_overlays_to_attach(),
            final(self).spec_next_layer_id() == old(self).spec_next_layer_id(),
            final(self).spec_layers_to_detach() == old(self).spec_layers_to_detach(),
            final(self).spec_overlays_to_detach() == old(self).spec_overlays_to_detach(),
    {
        attach_pending(&mut self.layers, &mut self.layers_to_attach);
    }

    /// Attach the pending overlays on top of the overlay stack, in request
    /// order, calling `on_attach` on each.
    pub fn attach_pending_overlays(&mut self)
        ensures
            final(self).spec_overlays_to_attach().len() == 0,
            final(self).spec_overlays().len() == old(self).spec_overlays().len() + old(self).spec_overlays_to_attach().len(),
            final(self).spec_overlays().subrange(0, old(self).spec_overlays().len() as int) == old(self).spec_overlays(),
            stack_ids(final(self).spec_overlays()) == stack_ids(old(self).spec_overlays()) + pending_ids(old(self).spec_overlays_to_attach()),
            final(self).spec_layers() == old(self).spec_layers(),
            final(self).spec_layers_to_attach() == old(self).spec_layers_to_attach(),
            final(self).spec_next_layer_id() == old(self).spec_next_layer_id(),
            final(self).spec_layers_to_detach() == old(self).spec_layers_to_detach(),
            final(self).spec_overlays_to_detach() == old(self).spec_overlays_to_detach(),
    {
        attach_pending(&mut self.overlays, &mut self.overlays_to_attach);
    }

    /// Detach the layers whose detachment was requested: call `on_detach` on
    /// the first layer with each requested identifier, then drop every layer
    /// with a requested identifier from the stack, keeping the others in order.
    pub fn detach_pending_layers(&mut self)
        ensures
            final(self).spec_layers_to_detach().len() == 0,
            final(self).spec_layers() == without_ids(old(self).spec_layers(), old(self).spec_layers_to_detach()),
            final(self).spec_overlays() == old(self).spec_overlays(),
            final(self).spec_layers_to_attach() == old(self).spec_layers_to_attach(),
            final(self).spec_overlays_to_attach() == old(self).spec_overlays_to_attach(),
            final(self).spec_next_layer_id() == old(self).spec_next_layer_id(),
            final(self).spec_overlays_to_detach() == old(self).spec_overlays_to_detach(),
    {
        detach_pending(&mut self.layers, &mut self.layers_to_detach, true);
    }

    /// Detach the overlays whose detachment was requested: call `on_detach`
    /// on every overlay with a requested identifier, then drop them from the
    /// stack, keeping the others in order.
    pub fn detach_pending_overlays(&mut self)
        ensures
            final(self).spec_overlays_to_detach().len() == 0,
            final(self).spec_overlays() == without_ids(old(self).spec_overlays(), old(self).spec_overlays_to_detach()),
            final(self).spec_layers() == old(self).spec_layers(),
            final(self).spec_layers_to_attach() == old(self).spec_layers_to_attach(),
            final(self).spec_overlays_to_attach() == old(self).spec_overlays_to_attach(),
            final(self).spec_next_layer_id() == old(self).spec_next_layer_id(),
            final(self).spec_layers_to_detach() == old(self).spec_layers_to_detach(),
    {
        detach_pending(&mut self.overlays, &mut self.overlays_to_detach, false);
    }
}

} // verus!
