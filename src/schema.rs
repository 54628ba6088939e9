use vstd::prelude::*;

verus! {

/// The expected shape of a value: a string leaf, a boolean leaf, a struct of named
/// fields, or an enum of named variants.
#[derive(Debug)]
pub enum Schema {
    Struct { fields: Vec<Field> },
    Enum { variants: Vec<Variant> },
    String,
    Bool,
}

/// A named slot of a struct; a repeated field may occur any number of times.
#[derive(Debug)]
pub struct Field {
    pub name: String,
    pub repeated: bool,
    pub schema: Schema,
}

/// A named alternative of an enum.
#[derive(Debug)]
pub struct Variant {
    pub name: String,
    pub schema: Schema,
}

/// Mathematical model of a `Schema`.
pub enum SchemaModel {
    Struct { fields: Seq<FieldModel> },
    Enum { variants: Seq<VariantModel> },
    Str,
    Boolean,
}

/// Mathematical model of a `Field`.
pub struct FieldModel {
    pub name: Seq<char>,
    pub repeated: bool,
    pub schema: SchemaModel,
}

/// Mathematical model of a `Variant`.
pub struct VariantModel {
    pub name: Seq<char>,
    pub schema: SchemaModel,
}

impl View for Schema {
    type V = SchemaModel;

    open spec fn view(&self) -> SchemaModel
        decreases self,
    {
        match self {
            Schema::Struct { fields } => SchemaModel::Struct {
                fields: Seq::new(
                    fields@.len(),
                    |k: int|
                        if 0 <= k < fields@.len() {
                            fields@[k]@
                        } else {
                            arbitrary()
                        },
                ),
            },
            Schema::Enum { variants } => SchemaModel::Enum {
                variants: Seq::new(
                    variants@.len(),
                    |k: int|
                        if 0 <= k < variants@.len() {
                            variants@[k]@
                        } else {
                            arbitrary()
                        },
                ),
            },
            Schema::String => SchemaModel::Str,
            Schema::Bool => SchemaModel::Boolean,
        }
    }
}

impl View for Field {
    type V = FieldModel;

    open spec fn view(&self) -> FieldModel
        decreases self,
    {
        FieldModel { name: self.name@, repeated: self.repeated, schema: self.schema@ }
    }
}

impl View for Variant {
    type V = VariantModel;

    open spec fn view(&self) -> VariantModel
        decreases self,
    {
        VariantModel { name: self.name@, schema: self.schema@ }
    }
}

/// A decoded value, shaped like the schema it was decoded against.
#[derive(Debug)]
pub enum TypedValue {
    Struct { fields: Vec<FieldValue> },
    Enum { variant: Box<VariantValue> },
    String(String),
    Bool(bool),
}

/// One decoded occurrence of a struct's field.
#[derive(Debug)]
pub struct FieldValue {
    pub name: String,
    pub value: TypedValue,
}

/// The variant an enum was decoded as, with its decoded content.
#[derive(Debug)]
pub struct VariantValue {
    pub name: String,
    pub value: TypedValue,
}

/// Mathematical model of a `TypedValue`.
pub enum TypedModel {
    Struct { fields: Seq<FieldValueModel> },
    Enum { variant: Box<VariantValueModel> },
    Str(Seq<char>),
    Boolean(bool),
}

/// Mathematical model of a `FieldValue`.
pub struct FieldValueModel {
    pub name: Seq<char>,
    pub value: TypedModel,
}

/// Mathematical model of a `VariantValue`.
pub struct VariantValueModel {
    pub name: Seq<char>,
    pub value: TypedModel,
}

impl View for TypedValue {
    type V = TypedModel;

    open spec fn view(&self) -> TypedModel
        decreases self,
    {
        match self {
            TypedValue::Struct { fields } => TypedModel::Struct {
                fields: Seq::new(
                    fields@.len(),
                    |k: int|
                        if 0 <= k < fields@.len() {
                            fields@[k]@
                        } else {
                            arbitrary()
                        },
                ),
            },
            TypedValue::Enum { variant } => TypedModel::Enum {
                variant: Box::new(VariantValueModel { name: variant.name@, value: variant.value@ }),
            },
            TypedValue::String(s) => TypedModel::Str(s@),
            TypedValue::Bool(b) => TypedModel::Boolean(*b),
        }
    }
}

impl View for FieldValue {
    type V = FieldValueModel;

    open spec fn view(&self) -> FieldValueModel
        decreases self,
    {
        FieldValueModel { name: self.name@, value: self.value@ }
    }
}

/// Why a tree does not fit a schema.
#[derive(Debug)]
pub enum DecodeError {
    /// A binding names no field of the struct.
    UnknownField { name: String },
    /// A token names no variant of the enum.
    UnknownVariant { name: String },
    /// A field that is not repeated has no binding.
    MissingField { name: String },
    /// A field that is not repeated is given more than one value.
    DuplicateField { name: String },
    /// A boolean leaf holds a token other than `true` or `false`.
    InvalidBool { token: String },
    /// A leaf carries a block of bindings.
    UnexpectedBlock { token: String },
}

/// Mathematical model of a `DecodeError`.
pub enum DecodeErrorModel {
    UnknownField { name: Seq<char> },
    UnknownVariant { name: Seq<char> },
    MissingField { name: Seq<char> },
    DuplicateField { name: Seq<char> },
    InvalidBool { token: Seq<char> },
    UnexpectedBlock { token: Seq<char> },
}

impl View for DecodeError {
    type V = DecodeErrorModel;

    open spec fn view(&self) -> DecodeErrorModel {
        match self {
            DecodeError::UnknownField { name } => DecodeErrorModel::UnknownField { name: name@ },
            DecodeError::UnknownVariant { name } => DecodeErrorModel::UnknownVariant {
                name: name@,
            },
            DecodeError::MissingField { name } => DecodeErrorModel::MissingField { name: name@ },
            DecodeError::DuplicateField { name } => DecodeErrorModel::DuplicateField {
                name: name@,
            },
            DecodeError::InvalidBool { token } => DecodeErrorModel::InvalidBool { token: token@ },
            DecodeError::UnexpectedBlock { token } => DecodeErrorModel::UnexpectedBlock {
                token: token@,
            },
        }
    }
}

} // verus!
