use binding_notation::{
    DecodeError, Field, Schema, TypedValue, Variant, decode, parse_value,
};

fn flag(name: &str) -> Field {
    Field { name: name.to_string(), repeated: false, schema: Schema::Bool }
}

fn command_schema() -> Schema {
    Schema::Enum {
        variants: vec![
            Variant {
                name: "add".to_string(),
                schema: Schema::Struct {
                    fields: vec![
                        flag("verbose"),
                        flag("force"),
                        flag("chmod"),
                        Field { name: "pathspec".to_string(), repeated: true, schema: Schema::Bool },
                    ],
                },
            },
            Variant {
                name: "diff".to_string(),
                schema: Schema::Struct {
                    fields: vec![Field {
                        name: "path".to_string(),
                        repeated: false,
                        schema: Schema::String,
                    }],
                },
            },
        ],
    }
}

fn show(t: &TypedValue) -> String {
    match t {
        TypedValue::Struct { fields } => {
            let parts: Vec<String> =
                fields.iter().map(|f| format!("{}:{}", f.name, show(&f.value))).collect();
            format!("Struct[{}]", parts.join(","))
        }
        TypedValue::Enum { variant } => format!("Enum[{}:{}]", variant.name, show(&variant.value)),
        TypedValue::String(s) => format!("String[{}]", s),
        TypedValue::Bool(b) => format!("Bool[{}]", b),
    }
}

fn decode_text(schema: &Schema, text: &str) -> Result<TypedValue, DecodeError> {
    let (rest, value) = parse_value(text).unwrap();
    assert_eq!(rest, "");
    decode(schema, &value)
}

#[test]
fn decodes_a_subcommand_with_flags() {
    let r = decode_text(&command_schema(), "add{verbose=true force=false chmod=false}").unwrap();
    assert_eq!(
        show(&r),
        "Enum[add:Struct[verbose:Bool[true],force:Bool[false],chmod:Bool[false]]]"
    );
}

#[test]
fn entries_keep_the_order_of_the_input() {
    let r = decode_text(&command_schema(), "add{chmod=true force=false verbose=true}").unwrap();
    assert_eq!(
        show(&r),
        "Enum[add:Struct[chmod:Bool[true],force:Bool[false],verbose:Bool[true]]]"
    );
}

#[test]
fn absent_flag_that_is_not_repeated_is_an_error() {
    let r = decode_text(&command_schema(), "add{verbose=true force=false}");
    assert!(matches!(r, Err(DecodeError::MissingField { ref name }) if name == "chmod"));
}

#[test]
fn invalid_boolean_is_an_error() {
    let r = decode_text(&command_schema(), "add{verbose=maybe}");
    assert!(matches!(r, Err(DecodeError::InvalidBool { ref token }) if token == "maybe"));
}

#[test]
fn unknown_variant_is_an_error() {
    let r = decode_text(&command_schema(), "zzz{}");
    assert!(matches!(r, Err(DecodeError::UnknownVariant { ref name }) if name == "zzz"));
}

#[test]
fn unknown_field_is_an_error() {
    let r = decode_text(&command_schema(), "add{verbose=true extra=true}");
    assert!(matches!(r, Err(DecodeError::UnknownField { ref name }) if name == "extra"));
}

#[test]
fn repeated_field_collects_every_occurrence() {
    let r = decode_text(
        &command_schema(),
        "add{pathspec=true verbose=true pathspec=false,true force=false chmod=true}",
    )
    .unwrap();
    assert_eq!(
        show(&r),
        "Enum[add:Struct[pathspec:Bool[true],verbose:Bool[true],pathspec:Bool[false],\
         pathspec:Bool[true],force:Bool[false],chmod:Bool[true]]]"
    );
}

#[test]
fn repeated_field_may_be_absent() {
    let r = decode_text(&command_schema(), "add{verbose=true force=true chmod=true}").unwrap();
    assert!(!show(&r).contains("pathspec"));
}

#[test]
fn second_binding_of_a_plain_field_is_an_error() {
    let r = decode_text(&command_schema(), "add{verbose=true verbose=false}");
    assert!(matches!(r, Err(DecodeError::DuplicateField { ref name }) if name == "verbose"));
}

#[test]
fn several_values_for_a_plain_field_is_an_error() {
    let r = decode_text(&command_schema(), "add{verbose=true,false force=true chmod=true}");
    assert!(matches!(r, Err(DecodeError::DuplicateField { ref name }) if name == "verbose"));
}

#[test]
fn string_leaf_takes_the_token() {
    let r = decode_text(&command_schema(), "diff{path=src}").unwrap();
    assert_eq!(show(&r), "Enum[diff:Struct[path:String[src]]]");
}

#[test]
fn leaf_with_a_block_is_an_error() {
    let r = decode_text(&command_schema(), "diff{path=src{a=b}}");
    assert!(matches!(r, Err(DecodeError::UnexpectedBlock { ref token }) if token == "src"));
    let r = decode(&Schema::Bool, &parse_value("true{a=b}").unwrap().1);
    assert!(matches!(r, Err(DecodeError::UnexpectedBlock { ref token }) if token == "true"));
}

#[test]
fn bool_leaf_reads_both_literals() {
    assert!(matches!(decode_text(&Schema::Bool, "true"), Ok(TypedValue::Bool(true))));
    assert!(matches!(decode_text(&Schema::Bool, "false"), Ok(TypedValue::Bool(false))));
    assert!(matches!(decode_text(&Schema::Bool, "True"), Err(DecodeError::InvalidBool { .. })));
}

#[test]
fn decoding_reaches_three_levels() {
    fn level(name: &str, inner: Schema) -> Schema {
        Schema::Struct {
            fields: vec![Field { name: name.to_string(), repeated: false, schema: inner }],
        }
    }
    let schema = level("c", level("e", level("g", Schema::String)));
    let r = decode_text(&schema, "b{c=d{e=f{g=h}}}").unwrap();
    assert_eq!(show(&r), "Struct[c:Struct[e:Struct[g:String[h]]]]");
}
