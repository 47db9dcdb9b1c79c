//! The structured form of an annotated type declaration.
//!
//! A declaration is a tree: the declaration itself, its fields or variants,
//! and the fields of each variant. Every node of the tree carries an ordered
//! list of annotations. Names, types and annotation contents are kept as
//! text; nothing here interprets them.
//!
//! Each type has a mathematical model (`...Model`), reached with `@`, in
//! which text is a `Seq<char>` and a list is a `Seq`. All contracts of the
//! crate are stated over these models.

use vstd::prelude::*;

verus! {

/// Where an annotation, or a whole declaration, stands in the source text.
#[derive(Clone, Copy, PartialEq, Eq, Debug, Structural)]
pub struct Position {
    pub line: usize,
    pub column: usize,
}

/// The brackets around the content of a list-shaped annotation.
#[derive(Clone, Copy, PartialEq, Eq, Debug, Structural)]
pub enum Delimiter {
    Paren,
    Brace,
    Bracket,
}

/// The shape of an annotation: `tag`, `tag(content)` or `tag = content`.
#[derive(Clone, Copy, PartialEq, Eq, Debug, Structural)]
pub enum Form {
    Bare,
    List(Delimiter),
    Value,
}

/// One annotation: a tag and raw content that has not been interpreted yet.
/// The content of a `Form::Bare` annotation is empty.
#[derive(Debug, PartialEq, Eq)]
pub struct Annotation {
    pub tag: String,
    pub form: Form,
    pub content: String,
    pub position: Position,
}

/// The model of an [`Annotation`].
pub struct AnnotationModel {
    pub tag: Seq<char>,
    pub form: Form,
    pub content: Seq<char>,
    pub position: Position,
}

impl View for Annotation {
    type V = AnnotationModel;

    open spec fn view(&self) -> AnnotationModel {
        AnnotationModel {
            tag: self.tag@,
            form: self.form,
            content: self.content@,
            position: self.position,
        }
    }
}

impl DeepView for Annotation {
    type V = AnnotationModel;

    open spec fn deep_view(&self) -> AnnotationModel {
        self@
    }
}

impl Clone for Annotation {
    fn clone(&self) -> (r: Self)
        ensures
            r@ == self@,
    {
        Annotation {
            tag: self.tag.clone(),
            form: self.form,
            content: self.content.clone(),
            position: self.position,
        }
    }
}

/// A field without its name: its annotations and its type.
#[derive(Clone, Debug, PartialEq, Eq)]
pub struct Field {
    pub attrs: Vec<Annotation>,
    pub ty: String,
}

/// The model of a [`Field`].
pub struct FieldModel {
    pub attrs: Seq<AnnotationModel>,
    pub ty: Seq<char>,
}

impl View for Field {
    type V = FieldModel;

    open spec fn view(&self) -> FieldModel {
        FieldModel { attrs: self.attrs.deep_view(), ty: self.ty@ }
    }
}

impl DeepView for Field {
    type V = FieldModel;

    open spec fn deep_view(&self) -> FieldModel {
        self@
    }
}

/// A field of a record-like group: a name and the field proper.
#[derive(Clone, Debug, PartialEq, Eq)]
pub struct NamedField {
    pub name: String,
    pub field: Field,
}

/// The model of a [`NamedField`].
pub struct NamedFieldModel {
    pub name: Seq<char>,
    pub field: FieldModel,
}

impl View for NamedField {
    type V = NamedFieldModel;

    open spec fn view(&self) -> NamedFieldModel {
        NamedFieldModel { name: self.name@, field: self.field@ }
    }
}

impl DeepView for NamedField {
    type V = NamedFieldModel;

    open spec fn deep_view(&self) -> NamedFieldModel {
        self@
    }
}

/// One field group: named fields, unnamed fields, or nothing.
#[derive(Clone, Debug, PartialEq, Eq)]
pub enum Fields {
    Named(Vec<NamedField>),
    Unnamed(Vec<Field>),
    Unit,
}

/// The model of [`Fields`].
pub enum FieldsModel {
    Named(Seq<NamedFieldModel>),
    Unnamed(Seq<FieldModel>),
    Unit,
}

impl View for Fields {
    type V = FieldsModel;

    open spec fn view(&self) -> FieldsModel {
        match self {
            Fields::Named(fields) => FieldsModel::Named(fields.deep_view()),
            Fields::Unnamed(fields) => FieldsModel::Unnamed(fields.deep_view()),
            Fields::Unit => FieldsModel::Unit,
        }
    }
}

impl DeepView for Fields {
    type V = FieldsModel;

    open spec fn deep_view(&self) -> FieldsModel {
        self@
    }
}

/// A variant of a tagged union, with a field group of its own.
#[derive(Clone, Debug, PartialEq, Eq)]
pub struct Variant {
    pub attrs: Vec<Annotation>,
    pub ident: String,
    pub fields: Fields,
}

/// The model of a [`Variant`].
pub struct VariantModel {
    pub attrs: Seq<AnnotationModel>,
    pub ident: Seq<char>,
    pub fields: FieldsModel,
}

impl View for Variant {
    type V = VariantModel;

    open spec fn view(&self) -> VariantModel {
        VariantModel { attrs: self.attrs.deep_view(), ident: self.ident@, fields: self.fields@ }
    }
}

impl DeepView for Variant {
    type V = VariantModel;

    open spec fn deep_view(&self) -> VariantModel {
        self@
    }
}

/// The kind of a declaration together with what it contains.
#[derive(Clone, Debug, PartialEq, Eq)]
pub enum Data {
    Struct(Fields),
    Enum(Vec<Variant>),
    Union(Fields),
}

/// The model of [`Data`].
pub enum DataModel {
    Struct(FieldsModel),
    Enum(Seq<VariantModel>),
    Union(FieldsModel),
}

impl View for Data {
    type V = DataModel;

    open spec fn view(&self) -> DataModel {
        match self {
            Data::Struct(fields) => DataModel::Struct(fields@),
            Data::Enum(variants) => DataModel::Enum(variants.deep_view()),
            Data::Union(fields) => DataModel::Union(fields@),
        }
    }
}

impl DeepView for Data {
    type V = DataModel;

    open spec fn deep_view(&self) -> DataModel {
        self@
    }
}

/// An annotated type declaration. `generics` is carried along untouched.
/// `position` is where diagnostics about the declaration as a whole point.
#[derive(Clone, Debug, PartialEq, Eq)]
pub struct Declaration {
    pub attrs: Vec<Annotation>,
    pub ident: String,
    pub generics: String,
    pub data: Data,
    pub position: Position,
}

/// The model of a [`Declaration`].
pub struct DeclarationModel {
    pub attrs: Seq<AnnotationModel>,
    pub ident: Seq<char>,
    pub generics: Seq<char>,
    pub data: DataModel,
    pub position: Position,
}

impl View for Declaration {
    type V = DeclarationModel;

    open spec fn view(&self) -> DeclarationModel {
        DeclarationModel {
            attrs: self.attrs.deep_view(),
            ident: self.ident@,
            generics: self.generics@,
            data: self.data@,
            position: self.position,
        }
    }
}

impl DeepView for Declaration {
    type V = DeclarationModel;

    open spec fn deep_view(&self) -> DeclarationModel {
        self@
    }
}

/// The tag of an annotation that names the copies to generate.
pub open spec fn names_tag() -> Seq<char> {
    "names"@
}

/// The tag of an annotation whose content depends on the copy.
pub open spec fn mux_tag() -> Seq<char> {
    "mux"@
}

/// The tag of an annotation that lists the types to convert from.
pub open spec fn from_tag() -> Seq<char> {
    "from"@
}

impl Annotation {
    /// Whether the tag is the given word.
    pub fn has_tag(&self, word: &str) -> (r: bool)
        ensures
            r == (self.tag@ == word@),
    {
        let w = String::from_str(word);
        self.tag == w
    }
}

/// Whether two texts hold the same characters.
pub fn same_text(a: &String, b: &String) -> (r: bool)
    ensures
        r == (a@ == b@),
{
    *a == *b
}

/// Whether `key` is one of `keys`.
pub fn contains_text(keys: &Vec<String>, key: &String) -> (r: bool)
    ensures
        r == keys.deep_view().contains(key@),
{
    let mut i: usize = 0;
    while i < keys.len()
        invariant
            i <= keys.len(),
            forall|j: int| 0 <= j < i ==> keys.deep_view()[j] != key@,
        decreases keys.len() - i,
    {
        if same_text(&keys[i], key) {
            assert(keys.deep_view()[i as int] == key@);
            return true;
        }
        i = i + 1;
    }
    false
}

} // verus!
