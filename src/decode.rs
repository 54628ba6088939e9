use vstd::prelude::*;
use vstd::string::StringExecFns;
use crate::schema::{
    DecodeError, DecodeErrorModel, Field, FieldModel, FieldValue, FieldValueModel, Schema,
    SchemaModel, TypedModel, TypedValue, Variant, VariantModel, VariantValue, VariantValueModel,
};
use crate::tree::{Binding, BindingModel, Value, ValueModel, binding_views, value_views};

verus! {

/// The token that decodes to `true`.
pub open spec fn true_text() -> Seq<char> {
    seq!['t', 'r', 'u', 'e']
}

/// The token that decodes to `false`.
pub open spec fn false_text() -> Seq<char> {
    seq!['f', 'a', 'l', 's', 'e']
}

/// Index of the first field at or after `k` whose name is `name`.
pub open spec fn find_field(fields: Seq<FieldModel>, name: Seq<char>, k: int) -> Option<int>
    decreases fields.len() - k,
{
    if k < 0 || k >= fields.len() {
        None
    } else if fields[k].name == name {
        Some(k)
    } else {
        find_field(fields, name, k + 1)
    }
}

/// Index of the first variant at or after `k` whose name is `name`.
pub open spec fn find_variant(variants: Seq<VariantModel>, name: Seq<char>, k: int) -> Option<int>
    decreases variants.len() - k,
{
    if k < 0 || k >= variants.len() {
        None
    } else if variants[k].name == name {
        Some(k)
    } else {
        find_variant(variants, name, k + 1)
    }
}

/// The field found is in range and carries the name; when none is found, no field from
/// `k` on carries it.
pub proof fn lemma_find_field(fields: Seq<FieldModel>, name: Seq<char>, k: int)
    ensures
        find_field(fields, name, k) matches Some(j) ==> k <= j < fields.len() && fields[j].name
            == name,
        0 <= k && find_field(fields, name, k) is None ==> forall|j: int|
            k <= j < fields.len() ==> #[trigger] fields[j].name != name,
    decreases fields.len() - k,
{
    if 0 <= k < fields.len() && fields[k].name != name {
        lemma_find_field(fields, name, k + 1);
    }
}

/// The variant found is in range and carries the name; when none is found, no variant
/// from `k` on carries it.
pub proof fn lemma_find_variant(variants: Seq<VariantModel>, name: Seq<char>, k: int)
    ensures
        find_variant(variants, name, k) matches Some(j) ==> k <= j < variants.len()
            && variants[j].name == name,
        0 <= k && find_variant(variants, name, k) is None ==> forall|j: int|
            k <= j < variants.len() ==> #[trigger] variants[j].name != name,
    decreases variants.len() - k,
{
    if 0 <= k < variants.len() && variants[k].name != name {
        lemma_find_variant(variants, name, k + 1);
    }
}

/// The missing field reported is in range.
pub proof fn lemma_missing_field(fields: Seq<FieldModel>, bs: Seq<BindingModel>, k: int)
    ensures
        missing_field(fields, bs, k) matches Some(j) ==> k <= j < fields.len(),
    decreases fields.len() - k,
{
    if 0 <= k < fields.len() {
        lemma_missing_field(fields, bs, k + 1);
    }
}

/// Some binding among the first `n` of `bs` is named `name`.
pub open spec fn named_in(bs: Seq<BindingModel>, name: Seq<char>, n: int) -> bool {
    exists|j: int| 0 <= j < n && #[trigger] bs[j].name == name
}

/// Index of the first field at or after `k` that is not repeated and that no binding
/// of `bs` names.
pub open spec fn missing_field(
    fields: Seq<FieldModel>,
    bs: Seq<BindingModel>,
    k: int,
) -> Option<int>
    decreases fields.len() - k,
{
    if k < 0 || k >= fields.len() {
        None
    } else if !fields[k].repeated && !named_in(bs, fields[k].name, bs.len() as int) {
        Some(k)
    } else {
        missing_field(fields, bs, k + 1)
    }
}

/// Decodes `v` against `schema`.
/// - A string leaf takes the token; a boolean leaf takes `true` or `false`; a leaf with
///   a block is refused.
/// - A struct reads the value's bindings in order (the token is not read): each must
///   name a field, and each of its values becomes one entry of that field, in order.
///   A field that is not repeated takes exactly one value from one binding.
/// - An enum takes the variant that the token names, and decodes the same value
///   against that variant's schema.
/// The first error met, in that order, is the result.
pub open spec fn decode_value(schema: SchemaModel, v: ValueModel) -> Result<
    TypedModel,
    DecodeErrorModel,
>
    decreases schema, 0int, 0int,
{
    match schema {
        SchemaModel::Str => {
            if v.children.len() > 0 {
                Err(DecodeErrorModel::UnexpectedBlock { token: v.token })
            } else {
                Ok(TypedModel::Str(v.token))
            }
        },
        SchemaModel::Boolean => {
            if v.children.len() > 0 {
                Err(DecodeErrorModel::UnexpectedBlock { token: v.token })
            } else if v.token == true_text() {
                Ok(TypedModel::Boolean(true))
            } else if v.token == false_text() {
                Ok(TypedModel::Boolean(false))
            } else {
                Err(DecodeErrorModel::InvalidBool { token: v.token })
            }
        },
        SchemaModel::Struct { fields } => {
            proof {
                lemma_missing_field(fields, v.children, 0);
            }
            match decode_bindings(fields, v.children, v.children.len() as int) {
                Err(e) => Err(e),
                Ok(entries) => match missing_field(fields, v.children, 0) {
                    Some(k) => Err(DecodeErrorModel::MissingField { name: fields[k].name }),
                    None => Ok(TypedModel::Struct { fields: entries }),
                },
            }
        },
        SchemaModel::Enum { variants } => {
            proof {
                lemma_find_variant(variants, v.token, 0);
            }
            match find_variant(variants, v.token, 0) {
                None => Err(DecodeErrorModel::UnknownVariant { name: v.token }),
                Some(k) => match decode_value(variants[k].schema, v) {
                    Err(e) => Err(e),
                    Ok(t) => Ok(
                        TypedModel::Enum {
                            variant: Box::new(VariantValueModel { name: v.token, value: t }),
                        },
                    ),
                },
            }
        },
    }
}

/// One struct entry named `name` for each of `ts`, in order.
pub open spec fn entries_of(name: Seq<char>, ts: Seq<TypedModel>) -> Seq<FieldValueModel> {
    Seq::new(ts.len(), |j: int| FieldValueModel { name: name, value: ts[j] })
}

/// The entries that the first `n` bindings of `bs` give to a struct of `fields`.
pub open spec fn decode_bindings(fields: Seq<FieldModel>, bs: Seq<BindingModel>, n: int) -> Result<
    Seq<FieldValueModel>,
    DecodeErrorModel,
>
    decreases fields, 1int, n,
{
    if n <= 0 || n > bs.len() {
        Ok(Seq::empty())
    } else {
        match decode_bindings(fields, bs, n - 1) {
            Err(e) => Err(e),
            Ok(entries) => {
                let b = bs[n - 1];
                proof {
                    lemma_find_field(fields, b.name, 0);
                }
                match find_field(fields, b.name, 0) {
                    None => Err(DecodeErrorModel::UnknownField { name: b.name }),
                    Some(k) => {
                        {
                            let f = fields[k];
                            if !f.repeated && (b.values.len() > 1 || named_in(bs, b.name, n - 1)) {
                                Err(DecodeErrorModel::DuplicateField { name: f.name })
                            } else {
                                match decode_all(f.schema, b.values, b.values.len() as int) {
                                    Err(e) => Err(e),
                                    Ok(ts) => Ok(entries + entries_of(f.name, ts)),
                                }
                            }
                        }
                    },
                }
            },
        }
    }
}

/// The first `n` values of `vs`, each decoded against `schema`.
pub open spec fn decode_all(schema: SchemaModel, vs: Seq<ValueModel>, n: int) -> Result<
    Seq<TypedModel>,
    DecodeErrorModel,
>
    decreases schema, 1int, n,
{
    if n <= 0 || n > vs.len() {
        Ok(Seq::empty())
    } else {
        match decode_all(schema, vs, n - 1) {
            Err(e) => Err(e),
            Ok(ts) => match decode_value(schema, vs[n - 1]) {
                Err(e) => Err(e),
                Ok(t) => Ok(ts.push(t)),
            },
        }
    }
}

/// Once an error is met among the first `n` bindings, it stays the result for any
/// longer prefix.
proof fn lemma_bindings_error_sticks(fields: Seq<FieldModel>, bs: Seq<BindingModel>, n: int, m: int)
    requires
        0 <= n <= m <= bs.len(),
        decode_bindings(fields, bs, n) is Err,
    ensures
        decode_bindings(fields, bs, m) == decode_bindings(fields, bs, n),
    decreases m - n,
{
    if m > n {
        lemma_bindings_error_sticks(fields, bs, n, m - 1);
    }
}

/// Once an error is met among the first `n` values, it stays the result for any
/// longer prefix.
proof fn lemma_values_error_sticks(schema: SchemaModel, vs: Seq<ValueModel>, n: int, m: int)
    requires
        0 <= n <= m <= vs.len(),
        decode_all(schema, vs, n) is Err,
    ensures
        decode_all(schema, vs, m) == decode_all(schema, vs, n),
    decreases m - n,
{
    if m > n {
        lemma_values_error_sticks(schema, vs, n, m - 1);
    }
}

/// `t` has the shape that `schema` describes: a leaf of the same kind; a struct whose
/// every entry is named after a field and fits that field's schema; or an enum whose
/// variant is named after one of the schema's variants and fits that variant's schema.
pub open spec fn conforms(t: TypedModel, schema: SchemaModel) -> bool
    decreases schema,
{
    match schema {
        SchemaModel::Str => t is Str,
        SchemaModel::Boolean => t is Boolean,
        SchemaModel::Struct { fields } => {
            &&& t is Struct
            &&& forall|j: int|
                0 <= j < t->Struct_fields.len() ==> entry_conforms(
                    #[trigger] t->Struct_fields[j],
                    fields,
                )
        },
        SchemaModel::Enum { variants } => {
            &&& t is Enum
            &&& match find_variant(variants, t->Enum_variant.name, 0) {
                Some(k) => {
                    proof {
                        lemma_find_variant(variants, t->Enum_variant.name, 0);
                    }
                    conforms(t->Enum_variant.value, variants[k].schema)
                },
                None => false,
            }
        },
    }
}

/// `e` is named after one of `fields` and fits that field's schema.
pub open spec fn entry_conforms(e: FieldValueModel, fields: Seq<FieldModel>) -> bool
    decreases fields,
{
    match find_field(fields, e.name, 0) {
        Some(k) => {
            proof {
                lemma_find_field(fields, e.name, 0);
            }
            conforms(e.value, fields[k].schema)
        },
        None => false,
    }
}

/// Whatever decoding returns has the shape of the schema it was decoded against.
pub proof fn lemma_decoded_value_conforms(schema: SchemaModel, v: ValueModel)
    ensures
        decode_value(schema, v) matches Ok(t) ==> conforms(t, schema),
    decreases schema, 0int, 0int,
{
    match schema {
        SchemaModel::Struct { fields } => {
            lemma_decoded_entries_conform(fields, v.children, v.children.len() as int);
        },
        SchemaModel::Enum { variants } => {
            lemma_find_variant(variants, v.token, 0);
            if let Some(k) = find_variant(variants, v.token, 0) {
                lemma_decoded_value_conforms(variants[k].schema, v);
            }
        },
        _ => {},
    }
}

/// Every entry that decoding a struct's bindings gives is named after a field and fits
/// that field's schema.
pub proof fn lemma_decoded_entries_conform(fields: Seq<FieldModel>, bs: Seq<BindingModel>, n: int)
    ensures
        decode_bindings(fields, bs, n) matches Ok(es) ==> forall|j: int|
            0 <= j < es.len() ==> entry_conforms(#[trigger] es[j], fields),
    decreases fields, 1int, n,
{
    if 0 < n <= bs.len() {
        lemma_decoded_entries_conform(fields, bs, n - 1);
        let b = bs[n - 1];
        lemma_find_field(fields, b.name, 0);
        if let Some(k) = find_field(fields, b.name, 0) {
            let f = fields[k];
            lemma_decoded_values_conform(f.schema, b.values, b.values.len() as int);
            if let Ok(entries) = decode_bindings(fields, bs, n - 1) {
                if let Ok(ts) = decode_all(f.schema, b.values, b.values.len() as int) {
                    let es = entries + entries_of(f.name, ts);
                    assert forall|j: int| 0 <= j < es.len() implies entry_conforms(
                        #[trigger] es[j],
                        fields,
                    ) by {
                        if j >= entries.len() {
                            assert(es[j] == entries_of(f.name, ts)[j - entries.len()]);
                            assert(conforms(ts[j - entries.len()], f.schema));
                        } else {
                            assert(es[j] == entries[j]);
                        }
                    }
                }
            }
        }
    }
}

/// Every value that decoding a list of values gives fits the schema.
pub proof fn lemma_decoded_values_conform(schema: SchemaModel, vs: Seq<ValueModel>, n: int)
    ensures
        decode_all(schema, vs, n) matches Ok(ts) ==> forall|j: int|
            0 <= j < ts.len() ==> conforms(#[trigger] ts[j], schema),
    decreases schema, 1int, n,
{
    if 0 < n <= vs.len() {
        lemma_decoded_values_conform(schema, vs, n - 1);
        lemma_decoded_value_conforms(schema, vs[n - 1]);
        if let Ok(ts) = decode_all(schema, vs, n - 1) {
            if let Ok(t) = decode_value(schema, vs[n - 1]) {
                assert forall|j: int| 0 <= j < ts.push(t).len() implies conforms(
                    #[trigger] ts.push(t)[j],
                    schema,
                ) by {
                    if j < ts.len() {
                        assert(ts.push(t)[j] == ts[j]);
                    }
                }
            }
        }
    }
}

/// How many of `es` are named `name`.
pub open spec fn count_named(es: Seq<FieldValueModel>, name: Seq<char>) -> nat
    decreases es.len(),
{
    if es.len() == 0 {
        0
    } else {
        count_named(es.drop_last(), name) + if es.last().name == name {
            1nat
        } else {
            0nat
        }
    }
}

proof fn lemma_count_concat(a: Seq<FieldValueModel>, b: Seq<FieldValueModel>, name: Seq<char>)
    ensures
        count_named(a + b, name) == count_named(a, name) + count_named(b, name),
    decreases b.len(),
{
    if b.len() == 0 {
        assert(a + b =~= a);
    } else {
        lemma_count_concat(a, b.drop_last(), name);
        assert((a + b).drop_last() =~= a + b.drop_last());
    }
}

proof fn lemma_count_entries(entry_name: Seq<char>, ts: Seq<TypedModel>, name: Seq<char>)
    ensures
        count_named(entries_of(entry_name, ts), name) == if entry_name == name {
            ts.len()
        } else {
            0
        },
    decreases ts.len(),
{
    if ts.len() > 0 {
        lemma_count_entries(entry_name, ts.drop_last(), name);
        assert(entries_of(entry_name, ts).drop_last() =~= entries_of(entry_name, ts.drop_last()));
    }
}

proof fn lemma_decode_all_len(schema: SchemaModel, vs: Seq<ValueModel>, n: int)
    requires
        0 <= n <= vs.len(),
    ensures
        decode_all(schema, vs, n) matches Ok(ts) ==> ts.len() == n,
    decreases n,
{
    if n > 0 {
        lemma_decode_all_len(schema, vs, n - 1);
    }
}

/// For a field that is not repeated (the first of its name), the entries from the first
/// `n` bindings hold one entry named after it if one of those bindings names it, and
/// none otherwise; provided that each binding holds at least one value.
proof fn lemma_plain_field_count(fields: Seq<FieldModel>, bs: Seq<BindingModel>, n: int, k: int)
    requires
        0 <= n <= bs.len(),
        0 <= k < fields.len(),
        !fields[k].repeated,
        find_field(fields, fields[k].name, 0) == Some(k),
        forall|j: int| 0 <= j < bs.len() ==> (#[trigger] bs[j]).values.len() > 0,
    ensures
        decode_bindings(fields, bs, n) matches Ok(es) ==> count_named(es, fields[k].name) == (
        if named_in(bs, fields[k].name, n) {
            1nat
        } else {
            0nat
        }),
    decreases n,
{
    let name = fields[k].name;
    if n > 0 {
        lemma_plain_field_count(fields, bs, n - 1, k);
        let b = bs[n - 1];
        lemma_find_field(fields, b.name, 0);
        if let Ok(entries) = decode_bindings(fields, bs, n - 1) {
            if let Some(kb) = find_field(fields, b.name, 0) {
                let f = fields[kb];
                lemma_decode_all_len(f.schema, b.values, b.values.len() as int);
                if let Ok(ts) = decode_all(f.schema, b.values, b.values.len() as int) {
                    lemma_count_concat(entries, entries_of(f.name, ts), name);
                    lemma_count_entries(f.name, ts, name);
                    if b.name == name {
                        assert(kb == k);
                        assert(named_in(bs, name, n));
                    } else {
                        assert(f.name == b.name);
                        if named_in(bs, name, n) {
                            let j = choose|j: int| 0 <= j < n && #[trigger] bs[j].name == name;
                            assert(j != n - 1);
                            assert(named_in(bs, name, n - 1));
                        }
                        if named_in(bs, name, n - 1) {
                            let j = choose|j: int| 0 <= j < n - 1 && #[trigger] bs[j].name == name;
                            assert(named_in(bs, name, n));
                        }
                    }
                }
            }
        }
    }
}

/// A decoded struct holds exactly one entry for each field that is not repeated, when
/// each binding of the decoded value holds at least one value, as every parsed tree does.
pub proof fn lemma_plain_field_decoded_once(fields: Seq<FieldModel>, v: ValueModel, k: int)
    requires
        0 <= k < fields.len(),
        !fields[k].repeated,
        find_field(fields, fields[k].name, 0) == Some(k),
        forall|j: int| 0 <= j < v.children.len() ==> (#[trigger] v.children[j]).values.len() > 0,
    ensures
        decode_value(SchemaModel::Struct { fields }, v) matches Ok(t) ==> count_named(
            t->Struct_fields,
            fields[k].name,
        ) == 1,
{
    lemma_plain_field_count(fields, v.children, v.children.len() as int, k);
    lemma_missing_field(fields, v.children, 0);
    if let Ok(es) = decode_bindings(fields, v.children, v.children.len() as int) {
        if missing_field(fields, v.children, 0) is None {
            lemma_no_missing(fields, v.children, 0, k);
        }
    }
}

proof fn lemma_no_missing(fields: Seq<FieldModel>, bs: Seq<BindingModel>, from: int, k: int)
    requires
        0 <= from <= k < fields.len(),
        !fields[k].repeated,
        missing_field(fields, bs, from) is None,
    ensures
        named_in(bs, fields[k].name, bs.len() as int),
    decreases k - from,
{
    if from < k {
        lemma_no_missing(fields, bs, from + 1, k);
    }
}

/// The models of a sequence of fields, in order.
pub open spec fn field_models(fields: Seq<Field>) -> Seq<FieldModel> {
    Seq::new(fields.len(), |k: int| fields[k]@)
}

/// The models of a sequence of variants, in order.
pub open spec fn variant_models(variants: Seq<Variant>) -> Seq<VariantModel> {
    Seq::new(variants.len(), |k: int| variants[k]@)
}

/// The models of a sequence of struct entries, in order.
pub open spec fn field_value_models(entries: Seq<FieldValue>) -> Seq<FieldValueModel> {
    Seq::new(entries.len(), |k: int| entries[k]@)
}

fn find_field_index(fields: &Vec<Field>, name: &String) -> (r: Option<usize>)
    ensures
        match r {
            Some(k) => find_field(field_models(fields@), name@, 0) == Some(k as int),
            None => find_field(field_models(fields@), name@, 0) is None,
        },
{
    let ghost fms = field_models(fields@);
    let mut i: usize = 0;
    while i < fields.len()
        invariant
            i <= fields@.len(),
            fms == field_models(fields@),
            find_field(fms, name@, 0) == find_field(fms, name@, i as int),
        decreases fields@.len() - i,
    {
        if fields[i].name == *name {
            return Some(i);
        }
        i = i + 1;
    }
    None
}

fn find_variant_index(variants: &Vec<Variant>, name: &String) -> (r: Option<usize>)
    ensures
        match r {
            Some(k) => find_variant(variant_models(variants@), name@, 0) == Some(k as int),
            None => find_variant(variant_models(variants@), name@, 0) is None,
        },
{
    let ghost vms = variant_models(variants@);
    let mut i: usize = 0;
    while i < variants.len()
        invariant
            i <= variants@.len(),
            vms == variant_models(variants@),
            find_variant(vms, name@, 0) == find_variant(vms, name@, i as int),
        decreases variants@.len() - i,
    {
        if variants[i].name == *name {
            return Some(i);
        }
        i = i + 1;
    }
    None
}

fn is_named_in(bs: &Vec<Binding>, name: &String, n: usize) -> (r: bool)
    requires
        n <= bs@.len(),
    ensures
        r == named_in(binding_views(bs@), name@, n as int),
{
    let ghost bvs = binding_views(bs@);
    let mut i: usize = 0;
    while i < n
        invariant
            i <= n <= bs@.len(),
            bvs == binding_views(bs@),
            !named_in(bvs, name@, i as int),
        decreases n - i,
    {
        if bs[i].name == *name {
            assert(bvs[i as int].name == name@);
            return true;
        }
        i = i + 1;
    }
    false
}

fn find_missing_field(fields: &Vec<Field>, bs: &Vec<Binding>) -> (r: Option<usize>)
    ensures
        match r {
            Some(k) => missing_field(field_models(fields@), binding_views(bs@), 0) == Some(
                k as int,
            ),
            None => missing_field(field_models(fields@), binding_views(bs@), 0) is None,
        },
{
    let ghost fms = field_models(fields@);
    let mut i: usize = 0;
    while i < fields.len()
        invariant
            i <= fields@.len(),
            fms == field_models(fields@),
            missing_field(fms, binding_views(bs@), 0) == missing_field(
                fms,
                binding_views(bs@),
                i as int,
            ),
        decreases fields@.len() - i,
    {
        if !fields[i].repeated && !is_named_in(bs, &fields[i].name, bs.len()) {
            return Some(i);
        }
        i = i + 1;
    }
    None
}

/// Decodes `value` against `schema`, as `decode_value` states.
pub fn decode(schema: &Schema, value: &Value) -> (r: Result<TypedValue, DecodeError>)
    ensures
        match decode_value(schema@, value@) {
            Ok(t) => r is Ok && r->Ok_0@ == t,
            Err(e) => r is Err && r->Err_0@ == e,
        },
    decreases schema, 0int, 0int,
{
    match schema {
        Schema::String => {
            if value.children.len() > 0 {
                Err(DecodeError::UnexpectedBlock { token: value.value.clone() })
            } else {
                Ok(TypedValue::String(value.value.clone()))
            }
        },
        Schema::Bool => {
            proof {
                reveal_strlit("true");
                reveal_strlit("false");
                assert("true"@ =~= true_text());
                assert("false"@ =~= false_text());
            }
            if value.children.len() > 0 {
                Err(DecodeError::UnexpectedBlock { token: value.value.clone() })
            } else if value.value == <String as StringExecFns>::from_str("true") {
                Ok(TypedValue::Bool(true))
            } else if value.value == <String as StringExecFns>::from_str("false") {
                Ok(TypedValue::Bool(false))
            } else {
                Err(DecodeError::InvalidBool { token: value.value.clone() })
            }
        },
        Schema::Struct { fields } => {
            assert(schema@ == SchemaModel::Struct { fields: field_models(fields@) }) by {
                assert(field_models(fields@) =~= schema@->Struct_fields);
            }
            proof {
                lemma_missing_field(field_models(fields@), value@.children, 0);
                assert(value@.children =~= binding_views(value.children@));
            }
            match decode_fields(fields, &value.children) {
                Err(e) => Err(e),
                Ok(entries) => match find_missing_field(fields, &value.children) {
                    Some(k) => Err(DecodeError::MissingField { name: fields[k].name.clone() }),
                    None => {
                        let ghost em = field_value_models(entries@);
                        let r = TypedValue::Struct { fields: entries };
                        assert(r@ == TypedModel::Struct { fields: em }) by {
                            reveal_with_fuel(<TypedValue as View>::view, 2);
                            assert(r@->Struct_fields =~= em);
                        }
                        Ok(r)
                    },
                },
            }
        },
        Schema::Enum { variants } => {
            assert(schema@ == SchemaModel::Enum { variants: variant_models(variants@) }) by {
                assert(variant_models(variants@) =~= schema@->Enum_variants);
            }
            proof {
                lemma_find_variant(variant_models(variants@), value@.token, 0);
            }
            match find_variant_index(variants, &value.value) {
                None => Err(DecodeError::UnknownVariant { name: value.value.clone() }),
                Some(k) => match decode(&variants[k].schema, value) {
                    Err(e) => Err(e),
                    Ok(t) => {
                        let r = TypedValue::Enum {
                            variant: Box::new(VariantValue { name: value.value.clone(), value: t }),
                        };
                        proof {
                            reveal_with_fuel(<TypedValue as View>::view, 2);
                        }
                        Ok(r)
                    },
                },
            }
        },
    }
}

/// Decodes a struct's bindings `bs` against its `fields`, before the check for
/// missing fields.
fn decode_fields(fields: &Vec<Field>, bs: &Vec<Binding>) -> (r: Result<
    Vec<FieldValue>,
    DecodeError,
>)
    ensures
        match decode_bindings(field_models(fields@), binding_views(bs@), bs@.len() as int) {
            Ok(es) => r is Ok && field_value_models(r->Ok_0@) == es,
            Err(e) => r is Err && r->Err_0@ == e,
        },
    decreases fields, 1int, 0int,
{
    let ghost fms = field_models(fields@);
    let ghost bvs = binding_views(bs@);
    let mut out: Vec<FieldValue> = Vec::new();
    let mut i: usize = 0;
    assert(field_value_models(out@) =~= Seq::<FieldValueModel>::empty());
    while i < bs.len()
        invariant
            i <= bs@.len(),
            fms == field_models(fields@),
            bvs == binding_views(bs@),
            decode_bindings(fms, bvs, i as int) == Ok::<Seq<FieldValueModel>, DecodeErrorModel>(
                field_value_models(out@),
            ),
        decreases bs@.len() - i,
    {
        let b = &bs[i];
        assert(bvs[i as int] == b@);
        assert(b@.name == b.name@);
        proof {
            lemma_find_field(fms, b@.name, 0);
        }
        match find_field_index(fields, &b.name) {
            None => {
                proof {
                    lemma_bindings_error_sticks(fms, bvs, i + 1, bs@.len() as int);
                }
                return Err(DecodeError::UnknownField { name: b.name.clone() });
            },
            Some(k) => {
                let f = &fields[k];
                assert(fms[k as int] == f@);
                assert(b@.values.len() == b.values@.len());
                if !f.repeated && (b.values.len() > 1 || is_named_in(bs, &b.name, i)) {
                    proof {
                        lemma_bindings_error_sticks(fms, bvs, i + 1, bs@.len() as int);
                    }
                    return Err(DecodeError::DuplicateField { name: f.name.clone() });
                }
                assert(b@.values == value_views(b.values@)) by {
                    assert(b@.values =~= value_views(b.values@));
                }
                match decode_values_into(&f.schema, &b.values, &f.name, &mut out) {
                    Err(e) => {
                        proof {
                            lemma_bindings_error_sticks(fms, bvs, i + 1, bs@.len() as int);
                        }
                        return Err(e);
                    },
                    Ok(()) => {},
                }
            },
        }
        i = i + 1;
    }
    Ok(out)
}

/// Decodes each of `vs` against `schema` and adds it to `out` as an entry named `name`.
fn decode_values_into(
    schema: &Schema,
    vs: &Vec<Value>,
    name: &String,
    out: &mut Vec<FieldValue>,
) -> (r: Result<(), DecodeError>)
    ensures
        match decode_all(schema@, value_views(vs@), vs@.len() as int) {
            Ok(ts) => r is Ok && field_value_models(final(out)@) == field_value_models(old(out)@)
                + entries_of(name@, ts),
            Err(e) => r is Err && r->Err_0@ == e,
        },
    decreases schema, 1int, 0int,
{
    let ghost vvs = value_views(vs@);
    let ghost start = field_value_models(out@);
    let mut j: usize = 0;
    assert(start + entries_of(name@, Seq::empty()) =~= start);
    while j < vs.len()
        invariant
            j <= vs@.len(),
            vvs == value_views(vs@),
            start == field_value_models(old(out)@),
            decode_all(schema@, vvs, j as int) is Ok,
            field_value_models(out@) == start + entries_of(
                name@,
                decode_all(schema@, vvs, j as int)->Ok_0,
            ),
        decreases vs@.len() - j,
    {
        let ghost ts = decode_all(schema@, vvs, j as int)->Ok_0;
        assert(vvs[j as int] == vs@[j as int]@);
        match decode(schema, &vs[j]) {
            Err(e) => {
                proof {
                    lemma_values_error_sticks(schema@, vvs, j + 1, vs@.len() as int);
                }
                return Err(e);
            },
            Ok(t) => {
                let ghost tm = t@;
                let ghost prev = field_value_models(out@);
                out.push(FieldValue { name: name.clone(), value: t });
                let ghost entry = FieldValueModel { name: name@, value: tm };
                assert(field_value_models(out@) =~= prev.push(entry));
                assert(entries_of(name@, ts.push(tm)) =~= entries_of(name@, ts).push(
                    FieldValueModel { name: name@, value: tm },
                ));
            },
        }
        j = j + 1;
    }
    Ok(())
}

} // verus!
