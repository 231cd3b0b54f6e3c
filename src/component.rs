//! Component identity and per-type metadata.

use vstd::prelude::*;

verus! {

/// Process-stable identifier of a component type.
#[derive(Clone, Copy, Debug, PartialEq, Eq, Structural, Hash, PartialOrd, Ord)]
pub struct ComponentId(pub u64);

/// Size and alignment of a value, or of a whole chunk.
#[derive(Clone, Copy, Debug, PartialEq, Eq, Structural)]
pub struct Layout {
    pub size: usize,
    pub align: usize,
}

/// `n` is a power of two.
pub open spec fn is_pow2(n: int) -> bool
    decreases n,
{
    if n <= 0 {
        false
    } else if n == 1 {
        true
    } else {
        n % 2 == 0 && is_pow2(n / 2)
    }
}

/// Largest alignment accepted for a component or a chunk.
pub const MAX_ALIGN: usize = 4096;

impl Layout {
    /// A layout whose alignment is a power of two no larger than `MAX_ALIGN`.
    pub open spec fn wf(self) -> bool {
        is_pow2(self.align as int) && self.align <= MAX_ALIGN
    }

    /// Returns the layout of `size` bytes aligned to `align`.
    pub fn from_size_align(size: usize, align: usize) -> (r: Option<Layout>)
        ensures
            r.is_some() <==> is_pow2(align as int) && align <= MAX_ALIGN,
            r.is_some() ==> r.unwrap() == (Layout { size, align }),
    {
        if align == 0 || align > MAX_ALIGN {
            return None;
        }
        let mut a: usize = align;
        while a > 1
            invariant
                1 <= a <= align,
                is_pow2(align as int) <==> is_pow2(a as int),
            decreases a,
        {
            if a % 2 != 0 {
                return None;
            }
            a = a / 2;
        }
        Some(Layout { size, align })
    }

    pub fn size(&self) -> (r: usize)
        ensures
            r == self.size,
    {
        self.size
    }

    pub fn align(&self) -> (r: usize)
        ensures
            r == self.align,
    {
        self.align
    }
}

/// Metadata of one component type: identifier, layout and display name.
#[derive(Clone, Copy, Debug)]
pub struct ComponentInfo {
    id: ComponentId,
    layout: Layout,
    name: &'static str,
}

impl ComponentInfo {
    #[verifier::type_invariant]
    spec fn layout_is_valid(self) -> bool {
        self.layout.wf()
    }

    pub closed spec fn spec_id(self) -> ComponentId {
        self.id
    }

    pub closed spec fn spec_layout(self) -> Layout {
        self.layout
    }

    pub closed spec fn spec_name(self) -> Seq<char> {
        self.name@
    }

    /// Metadata of a component type with identifier `id` and layout `layout`.
    pub fn new(id: ComponentId, layout: Layout, name: &'static str) -> (r: ComponentInfo)
        requires
            layout.wf(),
        ensures
            r.spec_id() == id,
            r.spec_layout() == layout,
            r.spec_name() == name@,
    {
        ComponentInfo { id, layout, name }
    }

    /// Returns true if this is the component with identifier `id`.
    pub fn is(&self, id: ComponentId) -> (r: bool)
        ensures
            r == (self.spec_id() == id),
    {
        self.id.0 == id.0
    }

    pub fn id(&self) -> (r: ComponentId)
        ensures
            r == self.spec_id(),
    {
        self.id
    }

    pub fn layout(&self) -> (r: Layout)
        ensures
            r == self.spec_layout(),
            r.wf(),
    {
        proof {
            use_type_invariant(self);
        }
        self.layout
    }

    pub fn name(&self) -> (r: &'static str)
        ensures
            r@ == self.spec_name(),
    {
        self.name
    }
}

} // verus!
