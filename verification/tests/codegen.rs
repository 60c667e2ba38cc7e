use abi_codegen::error::CodegenError;
use abi_codegen::fragment::Fragment;
use abi_codegen::fragment::FragmentInput;
use abi_codegen::fragment::FragmentOutput;
use abi_codegen::generator::TypeScriptGenerator;
use abi_codegen::value::JsonValue;
use abi_codegen::value::Member;

fn input(name: Option<&str>, ty: &str) -> FragmentInput {
    FragmentInput {
        name: name.map(|s| s.to_string()),
        ty: ty.to_string(),
        indexed: None,
        internal_type: None,
    }
}

fn output(name: Option<&str>, ty: &str) -> FragmentOutput {
    FragmentOutput { name: name.map(|s| s.to_string()), ty: ty.to_string(), internal_type: None }
}

fn fragment(name: Option<&str>, kind: &str, ins: Vec<FragmentInput>) -> Fragment {
    Fragment {
        name: name.map(|s| s.to_string()),
        kind: kind.to_string(),
        inputs: ins,
        outputs: None,
        state_mutability: None,
        anonymous: None,
    }
}

#[test]
fn unique_key_sorts_types_and_joins_with_colons() {
    let mut f = fragment(
        Some("transfer"),
        "function",
        vec![input(Some("to"), "uint256"), input(None, "address")],
    );
    f.outputs = Some(vec![output(None, "bool")]);
    assert_eq!(f.get_unique_key(), "transfer:function:address,uint256:bool");
}

#[test]
fn unique_key_of_nameless_fragment_starts_empty() {
    let f = fragment(None, "constructor", vec![]);
    assert_eq!(f.get_unique_key(), ":constructor::");
}

#[test]
fn unique_key_ignores_parameter_names_and_order() {
    let a = fragment(
        Some("f"),
        "function",
        vec![input(Some("x"), "address"), input(Some("y"), "uint256")],
    );
    let b = fragment(
        Some("f"),
        "function",
        vec![input(Some("p"), "uint256"), input(None, "address")],
    );
    assert_eq!(a.get_unique_key(), b.get_unique_key());
}

#[test]
fn identifier_plain_returns_name() {
    let f = fragment(Some("transfer"), "function", vec![input(None, "address")]);
    assert_eq!(f.identifier(false).unwrap(), "transfer");
}

#[test]
fn identifier_explicit_appends_input_types_in_order() {
    let f = fragment(
        Some("transfer"),
        "function",
        vec![input(None, "uint256"), input(None, "address")],
    );
    assert_eq!(f.identifier(true).unwrap(), "transfer_uint256_address");
}

#[test]
fn identifier_rewrites_array_suffix() {
    let f = fragment(
        Some("batch"),
        "function",
        vec![input(None, "address[]"), input(None, "uint256[][]")],
    );
    assert_eq!(f.identifier(true).unwrap(), "batch_addressArray_uint256ArrayArray");
}

#[test]
fn identifier_missing_name_fails() {
    let f = fragment(None, "constructor", vec![]);
    assert_eq!(f.identifier(false), Err(CodegenError::MissingName));
    let g = fragment(Some(""), "function", vec![]);
    assert_eq!(g.identifier(true), Err(CodegenError::MissingName));
}

#[test]
fn literal_renders_every_variant() {
    let v = JsonValue::Object(vec![
        Member { key: "a".to_string(), value: JsonValue::Null },
        Member { key: "b".to_string(), value: JsonValue::Bool(true) },
        Member { key: "c".to_string(), value: JsonValue::Bool(false) },
        Member { key: "n".to_string(), value: JsonValue::Number("1.5".to_string()) },
        Member { key: "s".to_string(), value: JsonValue::Text("say \"hi\"".to_string()) },
        Member {
            key: "l".to_string(),
            value: JsonValue::List(vec![
                JsonValue::Text("x".to_string()),
                JsonValue::Number("2".to_string()),
            ]),
        },
        Member { key: "o".to_string(), value: JsonValue::Object(vec![]) },
    ]);
    assert_eq!(
        TypeScriptGenerator::create_literal_for(&v),
        "{a: null, b: true, c: false, n: 1.5, s: \"say \\\"hi\\\"\", l: [\"x\", 2], o: {}}"
    );
}

#[test]
fn declaration_pairs_identifier_and_literal() {
    let mut f = fragment(Some("transfer"), "function", vec![input(Some("to"), "address")]);
    f.outputs = Some(vec![output(None, "bool")]);
    f.state_mutability = Some("nonpayable".to_string());
    let (identifier, declaration) =
        TypeScriptGenerator::generate_fragment_declaration(&f, false).unwrap();
    assert_eq!(identifier, "transfer");
    assert_eq!(
        declaration,
        "export const transfer = {inputs: [{name: \"to\", type: \"address\"}], \
         name: \"transfer\", outputs: [{name: null, type: \"bool\"}], \
         state_mutability: \"nonpayable\", type: \"function\"} as const;"
    );
}

#[test]
fn declaration_missing_name_fails() {
    let f = fragment(None, "fallback", vec![]);
    assert!(matches!(
        TypeScriptGenerator::generate_fragment_declaration(&f, false),
        Err(CodegenError::MissingName)
    ));
}

#[test]
fn empty_input_yields_no_content() {
    assert_eq!(TypeScriptGenerator::generate_file_content(vec![]).unwrap(), None);
}

#[test]
fn all_filtered_out_yields_no_content() {
    let fs = vec![fragment(None, "constructor", vec![]), fragment(Some(""), "function", vec![])];
    assert_eq!(TypeScriptGenerator::generate_file_content(fs).unwrap(), None);
}

#[test]
fn unnamed_fragments_never_appear_in_output() {
    let fs = vec![
        fragment(None, "constructor", vec![input(None, "address")]),
        fragment(Some("ping"), "function", vec![]),
        fragment(Some(""), "event", vec![]),
    ];
    let content = TypeScriptGenerator::generate_file_content(fs).unwrap().unwrap();
    assert_eq!(
        content,
        "export const ping = {inputs: [], name: \"ping\", type: \"function\"} as const;\n\n\
         export default [ping] as const;"
    );
}

#[test]
fn duplicate_keys_keep_first_occurrence_only() {
    let mut first = fragment(Some("f"), "function", vec![input(Some("alpha"), "address")]);
    first.state_mutability = Some("view".to_string());
    let second = fragment(Some("f"), "function", vec![input(Some("beta"), "address")]);
    let content =
        TypeScriptGenerator::generate_file_content(vec![first, second]).unwrap().unwrap();
    assert!(content.contains("\"alpha\""));
    assert!(!content.contains("\"beta\""));
    // The name count is taken before deduplication, so the surviving
    // fragment still gets the type-qualified identifier.
    assert_eq!(
        content,
        "export const f_address = {inputs: [{name: \"alpha\", type: \"address\"}], name: \"f\", \
         state_mutability: \"view\", type: \"function\"} as const;\n\n\
         export default [f_address] as const;"
    );
}

#[test]
fn shared_names_get_explicit_identifiers_and_unique_names_stay_bare() {
    let fs = vec![
        fragment(Some("transfer"), "function", vec![input(None, "address")]),
        fragment(
            Some("transfer"),
            "function",
            vec![input(None, "address"), input(None, "uint256")],
        ),
        fragment(Some("approve"), "function", vec![input(None, "address")]),
    ];
    let content = TypeScriptGenerator::generate_file_content(fs).unwrap().unwrap();
    assert!(content.contains("export const transfer_address = "));
    assert!(content.contains("export const transfer_address_uint256 = "));
    assert!(content.contains("export const approve = "));
    assert!(content.ends_with(
        "export default [transfer_address, transfer_address_uint256, approve] as const;"
    ));
}

#[test]
fn explicit_identifier_suffix_uses_input_order_not_sorted_order() {
    let fs = vec![
        fragment(
            Some("mark"),
            "function",
            vec![input(None, "uint256"), input(None, "address")],
        ),
        fragment(Some("mark"), "function", vec![input(None, "bool")]),
    ];
    let content = TypeScriptGenerator::generate_file_content(fs).unwrap().unwrap();
    assert!(content.contains("export const mark_uint256_address = "));
    assert!(content.contains("export const mark_bool = "));
}

#[test]
fn generation_is_deterministic() {
    let make = || {
        vec![
            fragment(Some("a"), "function", vec![input(None, "address[]")]),
            fragment(Some("a"), "function", vec![input(None, "uint8")]),
            fragment(None, "constructor", vec![]),
            fragment(Some("b"), "event", vec![input(Some("x"), "uint256")]),
        ]
    };
    let one = TypeScriptGenerator::generate_file_content(make()).unwrap().unwrap();
    let two = TypeScriptGenerator::generate_file_content(make()).unwrap().unwrap();
    assert_eq!(one, two);
}
