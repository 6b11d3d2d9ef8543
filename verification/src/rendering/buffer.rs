//! Layout of the vertex data sent to a shader.
use crate::rendering::shader::{component_count, data_type_size, is_supported, ShaderDataType};
use vstd::prelude::*;
use vstd::std_specs::iter::IteratorSpec;

verus! {

/// Describes a buffer element, part of the vertex data to send to a shader.
#[derive(Debug)]
pub struct BufferElement {
    name: String,
    data_type: ShaderDataType,
    size: u32,
    offset: u32,
    normalized: bool,
}

/// A sequence of buffer elements laid out one after the other.
#[derive(Debug, Clone)]
pub struct BufferLayout {
    elements: Vec<BufferElement>,
    stride: u32,
}

impl BufferElement {
    /// An element's data type is supported and its size is that type's size.
    #[verifier::type_invariant]
    spec fn size_matches_type(&self) -> bool {
        &&& is_supported(self.data_type)
        &&& self.size == data_type_size(self.data_type)
    }

    pub closed spec fn spec_name(&self) -> String {
        self.name
    }

    pub closed spec fn spec_data_type(&self) -> ShaderDataType {
        self.data_type
    }

    pub closed spec fn spec_size(&self) -> u32 {
        self.size
    }

    pub closed spec fn spec_offset(&self) -> u32 {
        self.offset
    }

    pub closed spec fn spec_normalized(&self) -> bool {
        self.normalized
    }

    /// An element whose size is the size of its data type, at offset 0.
    pub fn new(name: String, data_type: ShaderDataType, normalized: bool) -> (e: Self)
        requires
            is_supported(data_type),
        ensures
            e.spec_name() == name,
            e.spec_data_type() == data_type,
            e.spec_size() == data_type_size(data_type),
            e.spec_offset() == 0,
            e.spec_normalized() == normalized,
    {
        BufferElement { size: data_type.get_size(), name, data_type, normalized, offset: 0 }
    }

    /// Number of scalar components of the element's data type.
    pub fn get_component_count(&self) -> (r: u32)
        ensures
            r == component_count(self.spec_data_type().data_type),
    {
        match self.data_type.data_type {
            crate::rendering::shader::DataType::Float
            | crate::rendering::shader::DataType::Bool
            | crate::rendering::shader::DataType::Int => 1,
            crate::rendering::shader::DataType::Float2
            | crate::rendering::shader::DataType::Int2 => 2,
            crate::rendering::shader::DataType::Float3
            | crate::rendering::shader::DataType::Int3 => 3,
            crate::rendering::shader::DataType::Float4
            | crate::rendering::shader::DataType::Int4 => 4,
            crate::rendering::shader::DataType::Mat3 => 3 * 3,
            crate::rendering::shader::DataType::Mat4 => 4 * 4,
            crate::rendering::shader::DataType::NoType => 0,
        }
    }

    pub fn get_data_type(&self) -> (r: ShaderDataType)
        ensures
            r == self.spec_data_type(),
    {
        self.data_type
    }

    pub fn is_normalized(&self) -> (r: bool)
        ensures
            r == self.spec_normalized(),
    {
        self.normalized
    }

    pub fn get_offset(&self) -> (r: u32)
        ensures
            r == self.spec_offset(),
    {
        self.offset
    }

    /// The element's size: the size of its data type.
    pub fn get_size(&self) -> (r: u32)
        ensures
            r == self.spec_size(),
            r == data_type_size(self.spec_data_type()),
            is_supported(self.spec_data_type()),
    {
        proof {
            use_type_invariant(self);
        }
        self.size
    }

    pub fn get_name(&self) -> (r: &str)
        ensures
            r@ == self.spec_name()@,
    {
        self.name.as_str()
    }
}

/// Sum of the sizes of the first `n` elements.
pub open spec fn sizes_before(s: Seq<BufferElement>, n: int) -> int
    decreases n,
{
    if n <= 0 {
        0
    } else {
        sizes_before(s, n - 1) + s[n - 1].spec_size()
    }
}

/// `laid` is `elems` with each element placed right after the previous one.
pub open spec fn laid_out(elems: Seq<BufferElement>, laid: Seq<BufferElement>) -> bool {
    &&& laid.len() == elems.len()
    &&& forall|i: int|
        0 <= i < elems.len() ==> {
            &&& (#[trigger] laid[i]).spec_name() == elems[i].spec_name()
            &&& laid[i].spec_data_type() == elems[i].spec_data_type()
            &&& laid[i].spec_size() == elems[i].spec_size()
            &&& laid[i].spec_normalized() == elems[i].spec_normalized()
            &&& laid[i].spec_offset() == sizes_before(elems, i)
            &&& laid[i].spec_size() == data_type_size(laid[i].spec_data_type())
        }
}

proof fn lemma_sizes_before_mono(s: Seq<BufferElement>, i: int, j: int)
    requires
        0 <= i <= j <= s.len(),
    ensures
        sizes_before(s, i) <= sizes_before(s, j),
    decreases j - i,
{
    if i < j {
        lemma_sizes_before_mono(s, i, j - 1);
    }
}

impl Clone for BufferElement {
    /// The same element.
    fn clone(&self) -> (r: Self)
        ensures
            r.spec_name()@ == self.spec_name()@,
            r.spec_data_type() == self.spec_data_type(),
            r.spec_size() == self.spec_size(),
            r.spec_offset() == self.spec_offset(),
            r.spec_normalized() == self.spec_normalized(),
    {
        proof {
            use_type_invariant(self);
        }
        BufferElement {
            name: self.name.clone(),
            data_type: self.data_type,
            size: self.size,
            offset: self.offset,
            normalized: self.normalized,
        }
    }
}

impl Default for BufferLayout {
    /// An empty layout, with stride 0.
    fn default() -> (layout: Self)
        ensures
            layout.spec_elements() == Seq::<BufferElement>::empty(),
            layout.spec_stride() == 0,
    {
        BufferLayout { elements: Vec::new(), stride: 0 }
    }
}

impl BufferLayout {
    pub closed spec fn spec_elements(&self) -> Seq<BufferElement> {
        self.elements@
    }

    pub closed spec fn spec_stride(&self) -> u32 {
        self.stride
    }

    /// A layout of `elements` in this order: each element's offset is the sum of
    /// the sizes of the elements before it, and the stride is the sum of all
    /// sizes.
    pub fn from_elements(elements: Vec<BufferElement>) -> (layout: Self)
        requires
            sizes_before(elements@, elements@.len() as int) <= u32::MAX,
        ensures
            laid_out(elements@, layout.spec_elements()),
            layout.spec_stride() == sizes_before(elements@, elements@.len() as int),
            elements@.len() > 0 ==> layout.spec_stride() == layout.spec_elements().last().spec_offset()
                + data_type_size(layout.spec_elements().last().spec_data_type()),
            forall|i: int| 0 <= i < elements@.len() ==> (#[trigger] layout.spec_elements()[i]).spec_offset()
                + data_type_size(layout.spec_elements()[i].spec_data_type()) <= layout.spec_stride(),
            elements@.len() > 0 ==> layout.spec_elements()[0].spec_offset() == 0,
            forall|i: int| 0 <= i < elements@.len() - 1 ==> (#[trigger] layout.spec_elements()[i + 1]).spec_offset()
                == layout.spec_elements()[i].spec_offset() + data_type_size(layout.spec_elements()[i].spec_data_type()),
    {
        let ghost orig = elements@;
        let mut layout = BufferLayout { elements, stride: 0 };
        layout.compute_offset_and_stride();
        proof {
            let laid = layout.spec_elements();
            assert forall|i: int| 0 <= i < orig.len() implies (#[trigger] laid[i]).spec_offset()
                + data_type_size(laid[i].spec_data_type()) <= layout.spec_stride() by {
                lemma_sizes_before_mono(orig, i + 1, orig.len() as int);
                assert(laid[i].spec_size() == orig[i].spec_size());
            }
            if orig.len() > 0 {
                assert(laid.last() == laid[orig.len() - 1]);
                assert(laid[0].spec_offset() == sizes_before(orig, 0));
            }
            assert forall|i: int| 0 <= i < orig.len() - 1 implies (#[trigger] laid[i + 1]).spec_offset()
                == laid[i].spec_offset() + data_type_size(laid[i].spec_data_type()) by {
                assert(laid[i + 1].spec_offset() == sizes_before(orig, i + 1));
                assert(laid[i].spec_offset() == sizes_before(orig, i));
            }
        }
        layout
    }

    fn compute_offset_and_stride(&mut self)
        requires
            sizes_before(old(self).elements@, old(self).elements@.len() as int) <= u32::MAX,
        ensures
            laid_out(old(self).elements@, final(self).elements@),
            final(self).stride == sizes_before(
                old(self).elements@,
                old(self).elements@.len() as int,
            ),
    {
        let ghost orig = self.elements@;
        let n = self.elements.len();
        let mut src: Vec<BufferElement> = Vec::new();
        std::mem::swap(&mut self.elements, &mut src);
        let mut offset: u32 = 0;
        let mut i: usize = 0;
        while src.len() > 0
            invariant
                i + src@.len() == orig.len(),
                orig.len() == n,
                src@ == orig.skip(i as int),
                offset == sizes_before(orig, i as int),
                sizes_before(orig, orig.len() as int) <= u32::MAX,
                laid_out(orig.take(i as int), self.elements@),
                forall|j: int| 0 <= j < i ==> self.elements@[j].spec_offset() == sizes_before(orig, j),
            decreases src@.len(),
        {
            let mut element = src.remove(0);
            assert(element == orig[i as int]);
            proof {
                use_type_invariant(&element);
            }
            proof {
                lemma_sizes_before_mono(orig, i as int + 1, orig.len() as int);
            }
            element.offset = offset;
            let size = element.size;
            self.elements.push(element);
            offset = offset + size;
            i = i + 1;
            proof {
                assert(src@ =~= orig.skip(i as int));
                assert forall|j: int| 0 <= j < i implies (#[trigger] self.elements@[j]).spec_name()
                    == orig.take(i as int)[j].spec_name() && self.elements@[j].spec_data_type()
                    == orig.take(i as int)[j].spec_data_type() && self.elements@[j].spec_size()
                    == orig.take(i as int)[j].spec_size() && self.elements@[j].spec_normalized()
                    == orig.take(i as int)[j].spec_normalized() && self.elements@[j].spec_offset()
                    == sizes_before(orig.take(i as int), j) && self.elements@[j].spec_size()
                    == data_type_size(self.elements@[j].spec_data_type()) by {
                    lemma_sizes_before_prefix(orig, i as int, j);
                }
            }
        }
        self.stride = offset;
        proof {
            assert(orig.take(i as int) =~= orig);
        }
    }

    /// Element `i`, for writing.
    pub fn get_element_mut(&mut self, i: usize) -> (r: &mut BufferElement)
        requires
            i < old(self).spec_elements().len(),
        ensures
            *r == old(self).spec_elements()[i as int],
            final(self).spec_elements() == old(self).spec_elements().update(i as int, *final(r)),
            final(self).spec_stride() == old(self).spec_stride(),
    {
        &mut self.elements[i]
    }

    pub fn get_buffer_elements(&self) -> (r: &Vec<BufferElement>)
        ensures
            r@ == self.spec_elements(),
    {
        &self.elements
    }

    pub fn get_stride(&self) -> (r: u32)
        ensures
            r == self.spec_stride(),
    {
        self.stride
    }

    pub fn iter(&self) -> (r: std::slice::Iter<'_, BufferElement>)
        ensures
            r.remaining() == self.spec_elements().as_ref(),
    {
        proof {
            broadcast use vstd::std_specs::slice::axiom_spec_slice_iter;
        }
        self.elements.as_slice().iter()
    }
}

proof fn lemma_sizes_before_prefix(s: Seq<BufferElement>, n: int, j: int)
    requires
        0 <= j <= n <= s.len(),
    ensures
        sizes_before(s.take(n), j) == sizes_before(s, j),
    decreases j,
{
    if j > 0 {
        lemma_sizes_before_prefix(s, n, j - 1);
        assert(s.take(n)[j - 1] == s[j - 1]);
    }
}

} // verus!
