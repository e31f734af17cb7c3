//! The mesh data model that voxelization reads: primitives and their typed vertex attributes.
use vstd::prelude::*;

verus! {

/// What a vertex attribute means.
#[derive(Debug, Clone, Copy, PartialEq, Eq, Structural, Hash)]
pub enum AttributeUsage {
    Position,
    Normal,
    Tangent,
    Texcoord(u32),
    Color(u32),
    Joints(u32),
    Weights(u32),
}

/// The scalar type of each component of an attribute.
#[derive(Debug, Clone, Copy, PartialEq, Eq, Structural, Hash)]
pub enum AttributeComponent {
    U8,
    U16,
    U32,
    I8,
    I16,
    F32,
}

/// The width in bytes of one component.
pub open spec fn component_bytes(c: AttributeComponent) -> nat {
    match c {
        AttributeComponent::U8 | AttributeComponent::I8 => 1,
        AttributeComponent::U16 | AttributeComponent::I16 => 2,
        AttributeComponent::U32 | AttributeComponent::F32 => 4,
    }
}

/// The number of components of one element.
pub open spec fn type_elements(t: AttributeType) -> nat {
    match t {
        AttributeType::Scalar => 1,
        AttributeType::Vec2 => 2,
        AttributeType::Vec3 => 3,
        AttributeType::Vec4 => 4,
        AttributeType::Mat2 => 4,
        AttributeType::Mat3 => 9,
        AttributeType::Mat4 => 16,
    }
}

impl AttributeComponent {
    /// The alignment in bytes of one component; primitive scalars align to their width.
    pub fn alignment(self) -> (r: usize)
        ensures
            r == component_bytes(self),
    {
        self.size()
    }

    /// The width in bytes of one component.
    pub fn size(self) -> (r: usize)
        ensures
            r == component_bytes(self),
    {
        match self {
            AttributeComponent::U8 => 1,
            AttributeComponent::U16 => 2,
            AttributeComponent::U32 => 4,
            AttributeComponent::I8 => 1,
            AttributeComponent::I16 => 2,
            AttributeComponent::F32 => 4,
        }
    }
}

/// The shape of one attribute element.
#[derive(Debug, Clone, Copy, PartialEq, Eq, Structural, Hash)]
pub enum AttributeType {
    Scalar,
    Vec2,
    Vec3,
    Vec4,
    Mat2,
    Mat3,
    Mat4,
}

impl AttributeType {
    /// The alignment of one element: that of its component, as arrays align to their items.
    pub fn alignment(self, comp: AttributeComponent) -> (r: usize)
        ensures
            r == component_bytes(comp),
    {
        comp.alignment()
    }

    /// The number of components of one element.
    pub fn size_elements(self) -> (r: usize)
        ensures
            r == type_elements(self),
    {
        match self {
            AttributeType::Scalar => 1,
            AttributeType::Vec2 => 2,
            AttributeType::Vec3 => 3,
            AttributeType::Vec4 => 4,
            AttributeType::Mat2 => 4,
            AttributeType::Mat3 => 9,
            AttributeType::Mat4 => 16,
        }
    }

    /// The width in bytes of one element.
    pub fn size_bytes(self, comp: AttributeComponent) -> (r: usize)
        ensures
            r == component_bytes(comp) * type_elements(self),
            r > 0,
    {
        comp.size() * self.size_elements()
    }
}

/// A scalar type that can be an attribute component.
pub trait AttributeComponentType {
    /// The component kind of the type.
    fn component() -> AttributeComponent;
}

impl AttributeComponentType for u8 {
    fn component() -> AttributeComponent {
        AttributeComponent::U8
    }
}

impl AttributeComponentType for u16 {
    fn component() -> AttributeComponent {
        AttributeComponent::U16
    }
}

impl AttributeComponentType for u32 {
    fn component() -> AttributeComponent {
        AttributeComponent::U32
    }
}

impl AttributeComponentType for i8 {
    fn component() -> AttributeComponent {
        AttributeComponent::I8
    }
}

impl AttributeComponentType for i16 {
    fn component() -> AttributeComponent {
        AttributeComponent::I16
    }
}

/// A type that can be an attribute element: its shape and component kind.
pub trait Attribute {
    /// The shape of the element.
    fn attr_type() -> AttributeType;

    /// The component kind of the element.
    fn attr_component() -> AttributeComponent;
}

impl Attribute for [u8; 3] {
    fn attr_type() -> AttributeType {
        AttributeType::Vec3
    }

    fn attr_component() -> AttributeComponent {
        AttributeComponent::U8
    }
}

impl Attribute for [u32; 3] {
    fn attr_type() -> AttributeType {
        AttributeType::Vec3
    }

    fn attr_component() -> AttributeComponent {
        AttributeComponent::U32
    }
}

/// The sign of a tangent's bitangent.
#[derive(Debug, Clone, Copy, PartialEq, Eq, Structural, Hash)]
pub enum Handedness {
    Negative,
    Positive,
}

/// Why bytes cannot be read as an attribute store.
#[derive(Debug, Clone, Copy, PartialEq, Eq, Structural)]
pub enum DynamicAttributeError {
    /// The bytes are not aligned to the element type.
    Alignment,
    /// The byte count is not a whole number of elements.
    Size,
    /// The element shape differs.
    Width,
    /// The component kind differs.
    Component,
    /// The element type has no size.
    BorrowedAsZST,
}

/// Storage of attribute elements whose type is known only at run time.
pub trait DynamicAttributeStorage {
    /// The number of elements.
    fn len(&self) -> usize;

    /// The shape of the elements.
    fn attr_type(&self) -> AttributeType;

    /// The component kind of the elements.
    fn attr_comp(&self) -> AttributeComponent;
}

/// A run of attribute elements held as raw bytes, with their shape and component kind.
pub struct DynAttrStore {
    base: Vec<u8>,
    ty: AttributeType,
    comp: AttributeComponent,
}

impl DynAttrStore {
    /// The raw bytes.
    pub closed spec fn spec_bytes(&self) -> Seq<u8> {
        self.base@
    }

    /// The shape of the elements.
    pub closed spec fn spec_type(&self) -> AttributeType {
        self.ty
    }

    /// The component kind of the elements.
    pub closed spec fn spec_component(&self) -> AttributeComponent {
        self.comp
    }

    /// A store over `base`, whose length must be a whole number of elements.
    pub fn from_bytes(base: Vec<u8>, ty: AttributeType, comp: AttributeComponent) -> (r: Result<
        DynAttrStore,
        DynamicAttributeError,
    >)
        ensures
            base@.len() as int % (component_bytes(comp) * type_elements(ty)) as int == 0 <==> r is Ok,
            r is Err ==> r == Err::<DynAttrStore, DynamicAttributeError>(DynamicAttributeError::Size),
            r is Ok ==> r->Ok_0.spec_bytes() == base@ && r->Ok_0.spec_type() == ty && r->Ok_0.spec_component()
                == comp,
    {
        if base.len() % ty.size_bytes(comp) != 0 {
            return Err(DynamicAttributeError::Size);
        }
        Ok(DynAttrStore { base, ty, comp })
    }

    /// The shape of the elements.
    pub fn attr_type(&self) -> (r: AttributeType)
        ensures
            r == self.spec_type(),
    {
        self.ty
    }

    /// The component kind of the elements.
    pub fn attr_component(&self) -> (r: AttributeComponent)
        ensures
            r == self.spec_component(),
    {
        self.comp
    }

    /// The number of whole elements.
    pub fn len(&self) -> (r: usize)
        ensures
            r == self.spec_bytes().len() as int / (component_bytes(self.spec_component()) * type_elements(
                self.spec_type(),
            )) as int,
    {
        self.base.len() / self.ty.size_bytes(self.comp)
    }

    /// Whether there is no whole element.
    pub fn is_empty(&self) -> (r: bool)
        ensures
            r == (self.spec_bytes().len() as int / (component_bytes(self.spec_component()) * type_elements(
                self.spec_type(),
            )) as int == 0),
    {
        self.len() == 0
    }
}

impl DynamicAttributeStorage for DynAttrStore {
    fn len(&self) -> usize {
        DynAttrStore::len(self)
    }

    fn attr_type(&self) -> AttributeType {
        self.ty
    }

    fn attr_comp(&self) -> AttributeComponent {
        self.comp
    }
}

/// How the vertices of a primitive form shapes.
#[derive(Debug, Clone, Copy, PartialEq, Eq, Structural, Hash)]
pub enum Mode {
    Points,
    Lines,
    LineLoop,
    LineStrip,
    Triangles,
    TriangleStrip,
    TriangleFan,
}

/// Whether no usage appears twice among the attributes.
pub open spec fn usages_unique<A>(attrs: Seq<(AttributeUsage, A)>) -> bool {
    forall|i: int, j: int| 0 <= i < j < attrs.len() ==> (#[trigger] attrs[i]).0 != (#[trigger] attrs[j]).0
}

/// One drawable part of a mesh: its mode, vertex indices, attributes by usage and material.
pub struct Primitive<A, M> {
    mode: Mode,
    indices: Vec<u32>,
    attributes: Vec<(AttributeUsage, A)>,
    material: M,
}

impl<A, M> Primitive<A, M> {
    /// The attributes, each with its usage.
    pub closed spec fn spec_attributes(&self) -> Seq<(AttributeUsage, A)> {
        self.attributes@
    }

    /// The mode.
    pub closed spec fn spec_mode(&self) -> Mode {
        self.mode
    }

    /// The vertex indices.
    pub closed spec fn spec_indices(&self) -> Seq<u32> {
        self.indices@
    }

    /// The material.
    pub closed spec fn spec_material(&self) -> M {
        self.material
    }

    /// A primitive with no attributes.
    pub fn new(mode: Mode, indices: Vec<u32>, material: M) -> (r: Primitive<A, M>)
        ensures
            r.spec_mode() == mode,
            r.spec_indices() == indices@,
            r.spec_material() == material,
            r.spec_attributes().len() == 0,
    {
        Primitive { mode, indices, attributes: Vec::new(), material }
    }

    /// Set the attribute of `usage`, returning the one it replaced.
    pub fn insert_attr(&mut self, usage: AttributeUsage, store: A) -> (r: Option<A>)
        requires
            usages_unique(old(self).spec_attributes()),
        ensures
            usages_unique(final(self).spec_attributes()),
            final(self).spec_mode() == old(self).spec_mode(),
            final(self).spec_indices() == old(self).spec_indices(),
            final(self).spec_material() == old(self).spec_material(),
            exists|k: int|
                0 <= k < final(self).spec_attributes().len() && final(self).spec_attributes()[k] == (usage, store),
    {
        let n = self.attributes.len();
        let mut i: usize = 0;
        while i < n
            invariant
                i <= n,
                n == self.attributes@.len(),
                forall|k: int| 0 <= k < i ==> (#[trigger] self.attributes@[k]).0 != usage,
                self.attributes@ == old(self).attributes@,
                self.indices@ == old(self).indices@,
                self.mode == old(self).mode,
                self.material == old(self).material,
                usages_unique(old(self).attributes@),
            decreases n - i,
        {
            if self.attributes[i].0 == usage {
                let ghost before = self.attributes@;
                let mut entry = (usage, store);
                std::mem::swap(&mut self.attributes[i], &mut entry);
                proof {
                    assert(self.attributes@ == before.update(i as int, (usage, store)));
                    assert(self.attributes@[i as int] == (usage, store));
                    assert forall|a: int, b: int| 0 <= a < b < self.attributes@.len() implies (#[trigger] self.attributes@[a]).0 != (#[trigger] self.attributes@[b]).0 by {
                        assert(before[a].0 != before[b].0);
                    }
                }
                return Some(entry.1);
            }
            i = i + 1;
        }
        let ghost before = self.attributes@;
        self.attributes.push((usage, store));
        proof {
            assert(self.attributes@[n as int] == (usage, store));
            assert forall|a: int, b: int| 0 <= a < b < self.attributes@.len() implies (#[trigger] self.attributes@[a]).0 != (#[trigger] self.attributes@[b]).0 by {
                if b < n {
                    assert(before[a].0 != before[b].0);
                } else {
                    assert(before[a].0 != usage);
                }
            }
        }
        None
    }

    /// The mode.
    pub fn mode(&self) -> (r: Mode)
        ensures
            r == self.spec_mode(),
    {
        self.mode
    }

    /// The vertex indices.
    pub fn indices(&self) -> (r: &[u32])
        ensures
            r@ == self.spec_indices(),
    {
        self.indices.as_slice()
    }

    /// The attributes, each with its usage.
    pub fn attributes(&self) -> (r: &Vec<(AttributeUsage, A)>)
        ensures
            r@ == self.spec_attributes(),
    {
        &self.attributes
    }

    /// The material.
    pub fn material(&self) -> (r: &M)
        ensures
            *r == self.spec_material(),
    {
        &self.material
    }

    /// The attribute of `attr`, if the primitive has one.
    pub fn get_attr(&self, attr: &AttributeUsage) -> (r: Option<&A>)
        ensures
            match r {
                Some(a) => exists|k: int|
                    0 <= k < self.spec_attributes().len() && self.spec_attributes()[k] == (*attr, *a),
                None => forall|k: int|
                    0 <= k < self.spec_attributes().len() ==> (#[trigger] self.spec_attributes()[k]).0 != *attr,
            },
    {
        let n = self.attributes.len();
        let mut i: usize = 0;
        while i < n
            invariant
                i <= n,
                n == self.attributes@.len(),
                forall|k: int| 0 <= k < i ==> (#[trigger] self.attributes@[k]).0 != *attr,
            decreases n - i,
        {
            if self.attributes[i].0 == *attr {
                proof {
                    assert(self.attributes@[i as int] == (*attr, self.attributes@[i as int].1));
                }
                return Some(&self.attributes[i].1);
            }
            i = i + 1;
        }
        None
    }

    /// Attribute iteration is not offered: always `None`.
    pub fn iter_attr(&self, attr: &AttributeUsage) -> (r: Option<()>)
        ensures
            r is None,
    {
        None
    }
}

/// A mesh: a list of primitives.
pub struct Mesh {
    pub primitives: Vec<Primitive<DynAttrStore, u32>>,
}

} // verus!
