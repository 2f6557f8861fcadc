//! Run-time descriptions of types: their name, layout and, for structures and
//! enumerations, their fields and variants with meta attributes.
use vstd::prelude::*;
use std::sync::Arc;
use crate::text::same_text;
use vstd::string::StringExecFns;

verus! {

/// A named meta attribute, optionally with a value.
pub struct MetaAttribute {
    name: String,
    value: Option<MetaAttributeValue>,
}

impl MetaAttribute {
    /// The attribute's name.
    pub closed spec fn name_view(&self) -> Seq<char> {
        self.name@
    }

    /// The attribute's value.
    pub closed spec fn value_view(&self) -> Option<MetaAttributeValue> {
        self.value
    }

    /// An attribute named `name` with `value`.
    pub fn new(name: String, value: Option<MetaAttributeValue>) -> (res: Self)
        ensures
            res.name_view() == name@,
            res.value_view() == value,
    {
        MetaAttribute { name, value }
    }

    /// The attribute's value.
    pub fn value(&self) -> (res: &Option<MetaAttributeValue>)
        ensures
            *res == self.value_view(),
    {
        &self.value
    }
}

/// A list of meta attributes.
pub struct MetaAttributeList {
    inner: Vec<MetaAttribute>,
}

impl MetaAttributeList {
    /// The attributes, in order.
    pub closed spec fn attributes_view(&self) -> Seq<MetaAttribute> {
        self.inner@
    }

    /// The list of `inner`.
    pub fn new(inner: Vec<MetaAttribute>) -> (res: Self)
        ensures
            res.attributes_view() == inner@,
    {
        MetaAttributeList { inner }
    }

    /// The first attribute named `name`.
    pub fn attribute(&self, name: &str) -> (res: Option<&MetaAttribute>)
        ensures
            match res {
                Some(attr) => exists|i: int|
                    0 <= i < self.attributes_view().len() && self.attributes_view()[i] == *attr
                        && attr.name_view() == name@ && forall|j: int|
                        0 <= j < i ==> #[trigger] self.attributes_view()[j].name_view() != name@,
                None => forall|j: int|
                    0 <= j < self.attributes_view().len() ==> #[trigger] self.attributes_view()[j].name_view() != name@,
            },
    {
        let mut i: usize = 0;
        while i < self.inner.len()
            invariant
                i <= self.inner.len(),
                forall|j: int| 0 <= j < i ==> #[trigger] self.inner@[j].name@ != name@,
            decreases self.inner.len() - i,
        {
            if same_text(self.inner[i].name.as_str(), name) {
                proof {
                    let attr = self.inner@[i as int];
                    assert(self.attributes_view()[i as int] == attr && attr.name_view() == name@);
                    assert(forall|j: int| 0 <= j < i ==> #[trigger] self.attributes_view()[j].name_view() != name@);
                }
                return Some(&self.inner[i]);
            }
            i = i + 1;
        }
        None
    }

    /// Whether an attribute is named `name`.
    pub fn has_attribute(&self, name: &str) -> (res: bool)
        ensures
            res == exists|j: int| 0 <= j < self.attributes_view().len() && #[trigger] self.attributes_view()[j].name_view() == name@,
    {
        self.attribute(name).is_some()
    }
}

/// The value of a meta attribute: a string, or a nested list.
pub enum MetaAttributeValue {
    Value(String),
    List(MetaAttributeList),
}

/// A field of a structure: its name, offset, type and attributes.
pub struct Field {
    name: String,
    offset_in_bytes: usize,
    ty: Arc<TypeDescription>,
    meta_attributes: MetaAttributeList,
}

impl Field {
    pub closed spec fn name_view(&self) -> Seq<char> {
        self.name@
    }

    pub closed spec fn offset_view(&self) -> usize {
        self.offset_in_bytes
    }

    pub closed spec fn ty_view(&self) -> Arc<TypeDescription> {
        self.ty
    }

    pub closed spec fn attributes_view(&self) -> Seq<MetaAttribute> {
        self.meta_attributes.attributes_view()
    }

    /// A field named `name`, at `offset_in_bytes`, of type `ty`.
    pub fn new(name: String, offset_in_bytes: usize, ty: Arc<TypeDescription>, meta_attributes: MetaAttributeList) -> (res: Self)
        ensures
            res.name_view() == name@,
            res.offset_view() == offset_in_bytes,
            res.ty_view() == ty,
            res.attributes_view() == meta_attributes.attributes_view(),
    {
        Field { name, offset_in_bytes, ty, meta_attributes }
    }

    /// The field's name.
    pub fn name(&self) -> (res: &str)
        ensures
            res@ == self.name_view(),
    {
        self.name.as_str()
    }

    /// The field's offset in bytes from the start of the structure.
    pub fn offset_in_bytes(&self) -> (res: usize)
        ensures
            res == self.offset_view(),
    {
        self.offset_in_bytes
    }

    /// The field's type.
    pub fn ty(&self) -> (res: &Arc<TypeDescription>)
        ensures
            *res == self.ty_view(),
    {
        &self.ty
    }

    /// The field's meta attributes.
    pub fn attributes(&self) -> (res: &MetaAttributeList)
        ensures
            res.attributes_view() == self.attributes_view(),
    {
        &self.meta_attributes
    }
}

/// The fields of a structure.
pub struct StructDescription {
    fields: Vec<Field>,
}

impl StructDescription {
    pub closed spec fn fields_view(&self) -> Seq<Field> {
        self.fields@
    }

    /// A structure of `fields`.
    pub fn new(fields: Vec<Field>) -> (res: Self)
        ensures
            res.fields_view() == fields@,
    {
        StructDescription { fields }
    }

    /// The fields, in order.
    pub fn fields(&self) -> (res: &Vec<Field>)
        ensures
            res@ == self.fields_view(),
    {
        &self.fields
    }
}

impl Default for StructDescription {
    fn default() -> (res: Self)
        ensures
            res.fields_view().len() == 0,
    {
        StructDescription { fields: Vec::new() }
    }
}

/// A variant of an enumeration: its name, its payload type if any, its discriminant.
pub struct Variant {
    name: String,
    ty: Option<Arc<TypeDescription>>,
    discriminant: u128,
}

impl Variant {
    pub closed spec fn name_view(&self) -> Seq<char> {
        self.name@
    }

    pub closed spec fn discriminant_view(&self) -> u128 {
        self.discriminant
    }

    /// A variant named `name` with discriminant `discriminant`.
    pub fn new(name: String, ty: Option<Arc<TypeDescription>>, discriminant: u128) -> (res: Self)
        ensures
            res.name_view() == name@,
            res.discriminant_view() == discriminant,
    {
        Variant { name, ty, discriminant }
    }

    /// The variant's name.
    pub fn name(&self) -> (res: &str)
        ensures
            res@ == self.name_view(),
    {
        self.name.as_str()
    }

    /// The variant's discriminant.
    pub fn discriminant(&self) -> (res: u128)
        ensures
            res == self.discriminant_view(),
    {
        self.discriminant
    }
}

/// The variants of an enumeration. Reading and writing the discriminant stored in a
/// value goes through functions on raw pointers, which the caller keeps beside this.
pub struct EnumDescription {
    variants: Vec<Variant>,
}

impl EnumDescription {
    pub closed spec fn variants_view(&self) -> Seq<Variant> {
        self.variants@
    }

    /// An enumeration of `variants`.
    pub fn new(variants: Vec<Variant>) -> (res: Self)
        ensures
            res.variants_view() == variants@,
    {
        EnumDescription { variants }
    }

    /// The first variant whose discriminant is `discriminant` (the one read from a value).
    pub fn variant_of_discriminant(&self, discriminant: u128) -> (res: Option<&Variant>)
        ensures
            match res {
                Some(v) => exists|i: int|
                    0 <= i < self.variants_view().len() && self.variants_view()[i] == *v
                        && v.discriminant_view() == discriminant && forall|j: int|
                        0 <= j < i ==> #[trigger] self.variants_view()[j].discriminant_view() != discriminant,
                None => forall|j: int|
                    0 <= j < self.variants_view().len() ==> #[trigger] self.variants_view()[j].discriminant_view() != discriminant,
            },
    {
        let mut i: usize = 0;
        while i < self.variants.len()
            invariant
                i <= self.variants.len(),
                forall|j: int| 0 <= j < i ==> #[trigger] self.variants@[j].discriminant != discriminant,
            decreases self.variants.len() - i,
        {
            if self.variants[i].discriminant == discriminant {
                proof {
                    let v = self.variants@[i as int];
                    assert(self.variants_view()[i as int] == v && v.discriminant_view() == discriminant);
                    assert(forall|j: int| 0 <= j < i ==> #[trigger] self.variants_view()[j].discriminant_view() != discriminant);
                }
                return Some(&self.variants[i]);
            }
            i = i + 1;
        }
        None
    }

    /// The variants, in order.
    pub fn variants(&self) -> (res: &Vec<Variant>)
        ensures
            res@ == self.variants_view(),
    {
        &self.variants
    }
}

/// A primitive type.
#[derive(Debug)]
pub enum PrimitiveType {
    Char,
    Bool,
    U8,
    U16,
    U32,
    U64,
    U128,
    USize,
    I8,
    I16,
    I32,
    I64,
    I128,
    ISize,
    F32,
    F64,
}

/// What a type is made of.
pub enum TypeDataDescription {
    Primitive(PrimitiveType),
    Struct(StructDescription),
    Enum(EnumDescription),
}

/// A type: its name, size, alignment and make-up.
pub struct TypeDescription {
    name: String,
    size_in_bytes: usize,
    alignment_in_bytes: usize,
    data: TypeDataDescription,
}

impl TypeDescription {
    pub closed spec fn name_view(&self) -> Seq<char> {
        self.name@
    }

    pub closed spec fn data_view(&self) -> TypeDataDescription {
        self.data
    }

    pub closed spec fn size_view(&self) -> usize {
        self.size_in_bytes
    }

    pub closed spec fn alignment_view(&self) -> usize {
        self.alignment_in_bytes
    }

    /// A type named `name` of the given layout and make-up.
    pub fn new(name: String, size_in_bytes: usize, alignment_in_bytes: usize, data: TypeDataDescription) -> (res: Self)
        ensures
            res.name_view() == name@,
            res.data_view() == data,
            res.size_view() == size_in_bytes,
            res.alignment_view() == alignment_in_bytes,
    {
        TypeDescription { name, size_in_bytes, alignment_in_bytes, data }
    }

    /// The description of `T`: what its `type_desc` gives.
    pub fn of<T: Reflectable>() -> (res: Arc<TypeDescription>)
        ensures
            call_ensures(T::type_desc, (), res),
    {
        T::type_desc()
    }

    /// The type's name.
    pub fn name(&self) -> (res: &str)
        ensures
            res@ == self.name_view(),
    {
        self.name.as_str()
    }

    /// The type's make-up.
    pub fn data(&self) -> (res: &TypeDataDescription)
        ensures
            *res == self.data_view(),
    {
        &self.data
    }

    /// The fields of the type, which is a structure.
    pub fn data_as_struct(&self) -> (res: &StructDescription)
        requires
            self.data_view() is Struct,
        ensures
            self.data_view() == TypeDataDescription::Struct(*res),
    {
        match &self.data {
            TypeDataDescription::Struct(s) => s,
            _ => vstd::pervasive::unreached(),
        }
    }
}

/// A type that describes itself.
pub trait Reflectable {
    fn type_desc() -> Arc<TypeDescription>;
}

/// A reflectable enumeration without fields.
pub trait FieldlessEnum: Reflectable + Copy + Clone {
}


/// The description of the primitive type `T`, named `name`, of kind `ty`, with the
/// size and alignment of `T`.
fn primitive_description<T>(name: &str, ty: PrimitiveType) -> (res: Arc<TypeDescription>)
    ensures
        res.name_view() == name@,
        res.data_view() == TypeDataDescription::Primitive(ty),
        res.size_view() == core::mem::size_of::<T>(),
        res.alignment_view() == core::mem::align_of::<T>(),
{
    Arc::new(TypeDescription::new(
        String::from_str(name),
        core::mem::size_of::<T>(),
        core::mem::align_of::<T>(),
        TypeDataDescription::Primitive(ty),
    ))
}

impl Reflectable for char {
    /// A primitive named `char`, with the size and alignment of `char`.
    fn type_desc() -> (res: Arc<TypeDescription>)
        ensures
            res.name_view() == "char"@,
            res.data_view() == TypeDataDescription::Primitive(PrimitiveType::Char),
            res.size_view() == core::mem::size_of::<char>(),
            res.alignment_view() == core::mem::align_of::<char>(),
    {
        primitive_description::<char>("char", PrimitiveType::Char)
    }
}

impl Reflectable for bool {
    /// A primitive named `bool`, with the size and alignment of `bool`.
    fn type_desc() -> (res: Arc<TypeDescription>)
        ensures
            res.name_view() == "bool"@,
            res.data_view() == TypeDataDescription::Primitive(PrimitiveType::Bool),
            res.size_view() == core::mem::size_of::<bool>(),
            res.alignment_view() == core::mem::align_of::<bool>(),
    {
        primitive_description::<bool>("bool", PrimitiveType::Bool)
    }
}

impl Reflectable for u8 {
    /// A primitive named `u8`, with the size and alignment of `u8`.
    fn type_desc() -> (res: Arc<TypeDescription>)
        ensures
            res.name_view() == "u8"@,
            res.data_view() == TypeDataDescription::Primitive(PrimitiveType::U8),
            res.size_view() == core::mem::size_of::<u8>(),
            res.alignment_view() == core::mem::align_of::<u8>(),
    {
        primitive_description::<u8>("u8", PrimitiveType::U8)
    }
}

impl Reflectable for u16 {
    /// A primitive named `u16`, with the size and alignment of `u16`.
    fn type_desc() -> (res: Arc<TypeDescription>)
        ensures
            res.name_view() == "u16"@,
            res.data_view() == TypeDataDescription::Primitive(PrimitiveType::U16),
            res.size_view() == core::mem::size_of::<u16>(),
            res.alignment_view() == core::mem::align_of::<u16>(),
    {
        primitive_description::<u16>("u16", PrimitiveType::U16)
    }
}

impl Reflectable for u32 {
    /// A primitive named `u32`, with the size and alignment of `u32`.
    fn type_desc() -> (res: Arc<TypeDescription>)
        ensures
            res.name_view() == "u32"@,
            res.data_view() == TypeDataDescription::Primitive(PrimitiveType::U32),
            res.size_view() == core::mem::size_of::<u32>(),
            res.alignment_view() == core::mem::align_of::<u32>(),
    {
        primitive_description::<u32>("u32", PrimitiveType::U32)
    }
}

impl Reflectable for u64 {
    /// A primitive named `u64`, with the size and alignment of `u64`.
    fn type_desc() -> (res: Arc<TypeDescription>)
        ensures
            res.name_view() == "u64"@,
            res.data_view() == TypeDataDescription::Primitive(PrimitiveType::U64),
            res.size_view() == core::mem::size_of::<u64>(),
            res.alignment_view() == core::mem::align_of::<u64>(),
    {
        primitive_description::<u64>("u64", PrimitiveType::U64)
    }
}

impl Reflectable for u128 {
    /// A primitive named `u128`, with the size and alignment of `u128`.
    fn type_desc() -> (res: Arc<TypeDescription>)
        ensures
            res.name_view() == "u128"@,
            res.data_view() == TypeDataDescription::Primitive(PrimitiveType::U128),
            res.size_view() == core::mem::size_of::<u128>(),
            res.alignment_view() == core::mem::align_of::<u128>(),
    {
        primitive_description::<u128>("u128", PrimitiveType::U128)
    }
}

impl Reflectable for usize {
    /// A primitive named `usize`, with the size and alignment of `usize`.
    fn type_desc() -> (res: Arc<TypeDescription>)
        ensures
            res.name_view() == "usize"@,
            res.data_view() == TypeDataDescription::Primitive(PrimitiveType::USize),
            res.size_view() == core::mem::size_of::<usize>(),
            res.alignment_view() == core::mem::align_of::<usize>(),
    {
        primitive_description::<usize>("usize", PrimitiveType::USize)
    }
}

impl Reflectable for i8 {
    /// A primitive named `i8`, with the size and alignment of `i8`.
    fn type_desc() -> (res: Arc<TypeDescription>)
        ensures
            res.name_view() == "i8"@,
            res.data_view() == TypeDataDescription::Primitive(PrimitiveType::I8),
            res.size_view() == core::mem::size_of::<i8>(),
            res.alignment_view() == core::mem::align_of::<i8>(),
    {
        primitive_description::<i8>("i8", PrimitiveType::I8)
    }
}

impl Reflectable for i16 {
    /// A primitive named `i16`, with the size and alignment of `i16`.
    fn type_desc() -> (res: Arc<TypeDescription>)
        ensures
            res.name_view() == "i16"@,
            res.data_view() == TypeDataDescription::Primitive(PrimitiveType::I16),
            res.size_view() == core::mem::size_of::<i16>(),
            res.alignment_view() == core::mem::align_of::<i16>(),
    {
        primitive_description::<i16>("i16", PrimitiveType::I16)
    }
}

impl Reflectable for i32 {
    /// A primitive named `i32`, with the size and alignment of `i32`.
    fn type_desc() -> (res: Arc<TypeDescription>)
        ensures
            res.name_view() == "i32"@,
            res.data_view() == TypeDataDescription::Primitive(PrimitiveType::I32),
            res.size_view() == core::mem::size_of::<i32>(),
            res.alignment_view() == core::mem::align_of::<i32>(),
    {
        primitive_description::<i32>("i32", PrimitiveType::I32)
    }
}

impl Reflectable for i64 {
    /// A primitive named `i64`, with the size and alignment of `i64`.
    fn type_desc() -> (res: Arc<TypeDescription>)
        ensures
            res.name_view() == "i64"@,
            res.data_view() == TypeDataDescription::Primitive(PrimitiveType::I64),
            res.size_view() == core::mem::size_of::<i64>(),
            res.alignment_view() == core::mem::align_of::<i64>(),
    {
        primitive_description::<i64>("i64", PrimitiveType::I64)
    }
}

impl Reflectable for i128 {
    /// A primitive named `i128`, with the size and alignment of `i128`.
    fn type_desc() -> (res: Arc<TypeDescription>)
        ensures
            res.name_view() == "i128"@,
            res.data_view() == TypeDataDescription::Primitive(PrimitiveType::I128),
            res.size_view() == core::mem::size_of::<i128>(),
            res.alignment_view() == core::mem::align_of::<i128>(),
    {
        primitive_description::<i128>("i128", PrimitiveType::I128)
    }
}

impl Reflectable for isize {
    /// A primitive named `isize`, with the size and alignment of `isize`.
    fn type_desc() -> (res: Arc<TypeDescription>)
        ensures
            res.name_view() == "isize"@,
            res.data_view() == TypeDataDescription::Primitive(PrimitiveType::ISize),
            res.size_view() == core::mem::size_of::<isize>(),
            res.alignment_view() == core::mem::align_of::<isize>(),
    {
        primitive_description::<isize>("isize", PrimitiveType::ISize)
    }
}

} // verus!
