//! Layout of a single memory block that holds several values of different
//! types, one after the other, each at an offset that respects its alignment.
//!
//! `MemLayout` carries the size and alignment of a memory layout (as
//! `std::alloc::Layout` does); `block_layout` computes the layout of the whole
//! block and `BlockLayoutIterator` the offset of every value in it.
use vstd::arithmetic::power2::pow2;
use vstd::prelude::*;

verus! {

/// Bytes needed after `size` bytes to reach a multiple of `align`.
pub open spec fn padding_for(size: nat, align: nat) -> nat {
    if size % align == 0 {
        0
    } else {
        (align - size % align) as nat
    }
}

/// `size` rounded up to a multiple of `align`.
pub open spec fn round_up(size: nat, align: nat) -> nat {
    size + padding_for(size, align)
}

pub open spec fn is_power_of_two(a: nat) -> bool {
    exists|k: nat| pow2(k) == a
}

/// Size and alignment of a memory layout.
#[derive(Debug, Clone, Copy, PartialEq, Eq, Structural)]
pub struct MemLayout {
    pub size: usize,
    pub align: usize,
}

/// What `extend` gives: the layout of `a` followed by `b`, and the offset of
/// `b` in it, or `None` when the combined size rounded up to the combined
/// alignment does not fit in `isize`.
pub open spec fn extend_spec(a: MemLayout, b: MemLayout) -> Option<(MemLayout, nat)> {
    let offset = round_up(a.spec_size() as nat, b.spec_align() as nat);
    let size: nat = offset + b.spec_size() as nat;
    let align = if a.spec_align() >= b.spec_align() {
        a.spec_align()
    } else {
        b.spec_align()
    };
    if round_up(size, align as nat) <= isize::MAX {
        Some((MemLayout { size: size as usize, align }, offset))
    } else {
        None
    }
}

/// The layout of the first `n` layouts placed one after the other, starting
/// from the empty layout with alignment 1.
pub open spec fn prefix_layout(layouts: Seq<MemLayout>, n: nat) -> Option<MemLayout>
    decreases n,
{
    if n == 0 {
        Some(MemLayout { size: 0, align: 1 })
    } else {
        match prefix_layout(layouts, (n - 1) as nat) {
            Some(prev) => match extend_spec(prev, layouts[n - 1]) {
                Some((l, _)) => Some(l),
                None => None,
            },
            None => None,
        }
    }
}

/// Offset of value `i` in the block of `layouts`.
pub open spec fn offset_of(layouts: Seq<MemLayout>, i: nat) -> nat {
    round_up(
        prefix_layout(layouts, i)->Some_0.spec_size() as nat,
        layouts[i as int].spec_align() as nat,
    )
}

/// The layout of the block: all layouts in order, padded to the alignment.
pub open spec fn block_layout_spec(layouts: Seq<MemLayout>) -> Option<MemLayout> {
    match prefix_layout(layouts, layouts.len()) {
        Some(l) => Some(MemLayout { size: round_up(l.spec_size() as nat, l.spec_align() as nat) as usize, ..l }),
        None => None,
    }
}

impl MemLayout {
    pub open spec fn spec_size(&self) -> usize {
        self.size
    }

    pub open spec fn spec_align(&self) -> usize {
        self.align
    }

    /// The conditions that a layout meets: the alignment is a power of two no
    /// greater than `isize::MAX + 1` and the size rounded up to it fits in `isize`.
    pub open spec fn wf(&self) -> bool {
        &&& self.spec_align() > 0
        &&& self.spec_align() <= isize::MAX + 1
        &&& is_power_of_two(self.spec_align() as nat)
        &&& round_up(self.spec_size() as nat, self.spec_align() as nat) <= isize::MAX
    }

    /// The layout of `size` bytes aligned to `align`.
    pub fn from_size_align(size: usize, align: usize) -> (l: Self)
        requires
            align > 0,
            align <= isize::MAX + 1,
            is_power_of_two(align as nat),
            round_up(size as nat, align as nat) <= isize::MAX,
        ensures
            l.wf(),
            l.spec_size() == size,
            l.spec_align() == align,
    {
        MemLayout { size, align }
    }

    pub fn size(&self) -> (r: usize)
        ensures
            r == self.spec_size(),
    {
        self.size
    }

    pub fn align(&self) -> (r: usize)
        ensures
            r == self.spec_align(),
    {
        self.align
    }

    /// This layout followed by `next`: the combined layout and the offset of
    /// `next` in it.
    pub fn extend(&self, next: &MemLayout) -> (r: Option<(MemLayout, usize)>)
        requires
            self.wf(),
            next.wf(),
        ensures
            match (r, extend_spec(*self, *next)) {
                (Some((l, off)), Some((sl, soff))) => l == sl && off == soff && l.wf(),
                (None, None) => true,
                _ => false,
            },
    {
        let rem = self.size % next.align;
        let pad = if rem == 0 {
            0
        } else {
            next.align - rem
        };
        let offset = self.size + pad;
        let new_size = match offset.checked_add(next.size) {
            Some(v) => v,
            None => return None,
        };
        let new_align = if self.align >= next.align {
            self.align
        } else {
            next.align
        };
        let rem2 = new_size % new_align;
        let pad2 = if rem2 == 0 {
            0
        } else {
            new_align - rem2
        };
        if pad2 > (isize::MAX as usize) || new_size > (isize::MAX as usize) - pad2 {
            return None;
        }
        let l = MemLayout { size: new_size, align: new_align };
        proof {
            assert(round_up(new_size as nat, new_align as nat) <= isize::MAX);
        }
        Some((l, offset))
    }

    /// This layout with its size rounded up to its alignment.
    pub fn pad_to_align(&self) -> (l: MemLayout)
        requires
            self.wf(),
        ensures
            l.wf(),
            l.spec_align() == self.spec_align(),
            l.spec_size() == round_up(self.spec_size() as nat, self.spec_align() as nat),
    {
        let rem = self.size % self.align;
        let pad = if rem == 0 {
            0
        } else {
            self.align - rem
        };
        let l = MemLayout { size: self.size + pad, align: self.align };
        proof {
            let s = self.size as int;
            let a = self.align as int;
            let r = l.size as int;
            assert(r % a == 0) by {
                if s % a != 0 {
                    let q = s / a;
                    let m = s % a;
                    vstd::arithmetic::div_mod::lemma_fundamental_div_mod(s, a);
                    assert(r == a * (q + 1)) by (nonlinear_arith)
                        requires
                            r == s + (a - m),
                            s == a * q + m,
                    ;
                    vstd::arithmetic::div_mod::lemma_mod_multiples_basic(q + 1, a);
                    assert((q + 1) * a == a * (q + 1)) by (nonlinear_arith);
                }
            }
        }
        l
    }
}

proof fn lemma_prefix_some(layouts: Seq<MemLayout>, i: nat, n: nat)
    requires
        i <= n,
        prefix_layout(layouts, n) is Some,
    ensures
        prefix_layout(layouts, i) is Some,
    decreases n - i,
{
    if i < n {
        lemma_prefix_some(layouts, i, (n - 1) as nat);
    }
}

proof fn lemma_prefix_wf(layouts: Seq<MemLayout>, n: nat)
    requires
        n <= layouts.len(),
        forall|j: int| 0 <= j < layouts.len() ==> (#[trigger] layouts[j]).wf(),
        prefix_layout(layouts, n) is Some,
    ensures
        prefix_layout(layouts, n)->Some_0.wf(),
    decreases n,
{
    if n == 0 {
        assert(pow2(0) == 1) by {
            vstd::arithmetic::power2::lemma2_to64();
        }
        assert(round_up(0, 1) == 0);
    } else {
        lemma_prefix_some(layouts, (n - 1) as nat, n);
        lemma_prefix_wf(layouts, (n - 1) as nat);
    }
}

/// Computes the layout of a block that holds values of the given layouts one
/// after the other, or `None` when it does not fit in `isize`.
pub fn block_layout(layouts: &[MemLayout]) -> (r: Option<MemLayout>)
    requires
        layouts@.len() > 0,
        forall|j: int| 0 <= j < layouts@.len() ==> (#[trigger] layouts@[j]).wf(),
    ensures
        r == block_layout_spec(layouts@),
        r matches Some(l) ==> l.wf(),
{
    let mut block = MemLayout { size: 0, align: 1 };
    proof {
        assert(pow2(0) == 1) by {
            vstd::arithmetic::power2::lemma2_to64();
        }
    }
    let mut i: usize = 0;
    while i < layouts.len()
        invariant
            i <= layouts@.len(),
            forall|j: int| 0 <= j < layouts@.len() ==> (#[trigger] layouts@[j]).wf(),
            prefix_layout(layouts@, i as nat) == Some(block),
            block.wf(),
        decreases layouts@.len() - i,
    {
        match block.extend(&layouts[i]) {
            Some((next, _offset)) => {
                block = next;
            },
            None => {
                proof {
                    assert(prefix_layout(layouts@, (i + 1) as nat) is None);
                    assert forall|n: nat| i + 1 <= n <= layouts@.len() implies prefix_layout(
                        layouts@,
                        n,
                    ) is None by {
                        if prefix_layout(layouts@, n) is Some {
                            lemma_prefix_some(layouts@, (i + 1) as nat, n);
                        }
                    }
                }
                return None;
            },
        }
        i = i + 1;
    }
    Some(block.pad_to_align())
}

/// Iterates over the offsets of the values in a block, in the order of the
/// layouts the block was built from.
pub struct BlockLayoutIterator {
    layouts: Vec<MemLayout>,
    current_layout: MemLayout,
    index: usize,
}

impl BlockLayoutIterator {
    pub closed spec fn spec_layouts(&self) -> Seq<MemLayout> {
        self.layouts@
    }

    /// Number of offsets already produced.
    pub closed spec fn spec_index(&self) -> nat {
        self.index as nat
    }

    pub closed spec fn wf(&self) -> bool {
        &&& self.index <= self.layouts@.len()
        &&& forall|j: int| 0 <= j < self.layouts@.len() ==> (#[trigger] self.layouts@[j]).wf()
        &&& prefix_layout(self.layouts@, self.layouts@.len()) is Some
        &&& prefix_layout(self.layouts@, self.index as nat) == Some(self.current_layout)
    }

    /// An iterator over the offsets of a block built from `layouts`; the
    /// layouts must fit in a block.
    pub fn new(layouts: Vec<MemLayout>) -> (it: Self)
        requires
            forall|j: int| 0 <= j < layouts@.len() ==> (#[trigger] layouts@[j]).wf(),
            prefix_layout(layouts@, layouts@.len()) is Some,
        ensures
            it.wf(),
            it.spec_layouts() == layouts@,
            it.spec_index() == 0,
    {
        BlockLayoutIterator { layouts, current_layout: MemLayout { size: 0, align: 1 }, index: 0 }
    }

    /// The offset of the next value, or `None` after the last one.
    pub fn next(&mut self) -> (r: Option<usize>)
        requires
            old(self).wf(),
        ensures
            final(self).wf(),
            final(self).spec_layouts() == old(self).spec_layouts(),
            old(self).spec_index() == old(self).spec_layouts().len() ==> r is None
                && final(self).spec_index() == old(self).spec_index(),
            old(self).spec_index() < old(self).spec_layouts().len() ==> r == Some(
                offset_of(old(self).spec_layouts(), old(self).spec_index()) as usize,
            ) && final(self).spec_index() == old(self).spec_index() + 1,
    {
        if self.index == self.layouts.len() {
            return None;
        }
        proof {
            lemma_prefix_some(self.layouts@, (self.index + 1) as nat, self.layouts@.len());
            lemma_prefix_wf(self.layouts@, self.index as nat);
        }
        match self.current_layout.extend(&self.layouts[self.index]) {
            Some((next_layout, next_offset)) => {
                self.current_layout = next_layout;
                self.index = self.index + 1;
                Some(next_offset)
            },
            None => unreached(),
        }
    }
}

} // verus!
