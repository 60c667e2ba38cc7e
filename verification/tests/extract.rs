use abi_codegen::error::CodegenError;
use abi_codegen::fragment::Fragment;
use abi_codegen::fragment::FragmentInput;
use abi_codegen::generator::TypeScriptGenerator;
use abi_codegen::generator::fragment_to_value;
use abi_codegen::processor::deduplicate_abis;
use abi_codegen::processor::extract_abis_from_text;
use abi_codegen::value::JsonValue;
use abi_codegen::value::Member;

// A small structural reader for the emitted literal syntax (JSON with
// bare object keys), used to check that rendering loses nothing.
fn read_value(chars: &[char], mut pos: usize) -> (JsonValue, usize) {
    match chars[pos] {
        'n' => (JsonValue::Null, pos + 4),
        't' => (JsonValue::Bool(true), pos + 4),
        'f' => (JsonValue::Bool(false), pos + 5),
        '"' => {
            pos += 1;
            let mut s = String::new();
            while chars[pos] != '"' {
                if chars[pos] == '\\' && chars[pos + 1] == '"' {
                    s.push('"');
                    pos += 2;
                } else {
                    s.push(chars[pos]);
                    pos += 1;
                }
            }
            (JsonValue::Text(s), pos + 1)
        }
        '[' => {
            pos += 1;
            let mut items = Vec::new();
            while chars[pos] != ']' {
                if chars[pos] == ',' || chars[pos] == ' ' {
                    pos += 1;
                    continue;
                }
                let (v, next) = read_value(chars, pos);
                items.push(v);
                pos = next;
            }
            (JsonValue::List(items), pos + 1)
        }
        '{' => {
            pos += 1;
            let mut members = Vec::new();
            while chars[pos] != '}' {
                if chars[pos] == ',' || chars[pos] == ' ' {
                    pos += 1;
                    continue;
                }
                let mut key = String::new();
                while chars[pos] != ':' {
                    key.push(chars[pos]);
                    pos += 1;
                }
                pos += 2;
                let (v, next) = read_value(chars, pos);
                members.push(Member { key, value: v });
                pos = next;
            }
            (JsonValue::Object(members), pos + 1)
        }
        _ => {
            let mut s = String::new();
            while pos < chars.len()
                && chars[pos] != ','
                && chars[pos] != ']'
                && chars[pos] != '}'
            {
                s.push(chars[pos]);
                pos += 1;
            }
            (JsonValue::Number(s), pos)
        }
    }
}

#[test]
fn literal_round_trips_through_a_structural_reader() {
    let fragment = Fragment {
        name: Some("odd \"name\"".to_string()),
        kind: "function".to_string(),
        inputs: vec![FragmentInput {
            name: None,
            ty: "uint256[]".to_string(),
            indexed: Some(true),
            internal_type: Some("struct Point".to_string()),
        }],
        outputs: None,
        state_mutability: Some("payable".to_string()),
        anonymous: Some(false),
    };
    let structural = fragment_to_value(&fragment);
    let literal = TypeScriptGenerator::create_literal_for(&structural);
    let chars: Vec<char> = literal.chars().collect();
    let (reread, consumed) = read_value(&chars, 0);
    assert_eq!(consumed, chars.len());
    assert_eq!(reread, structural);
}

#[test]
fn number_literal_round_trips_exactly() {
    let v = JsonValue::List(vec![
        JsonValue::Number("1.50".to_string()),
        JsonValue::Number("-7".to_string()),
        JsonValue::Number("2e10".to_string()),
    ]);
    let literal = TypeScriptGenerator::create_literal_for(&v);
    assert_eq!(literal, "[1.50, -7, 2e10]");
    let chars: Vec<char> = literal.chars().collect();
    let (reread, consumed) = read_value(&chars, 0);
    assert_eq!(consumed, chars.len());
    assert_eq!(reread, v);
}

#[test]
fn token_scenario_produces_expected_file_content() {
    let text = "{\"abi\":[{\"name\":\"transfer\",\"type\":\"function\",\
                \"inputs\":[{\"name\":\"to\",\"type\":\"address\"}],\
                \"outputs\":[{\"type\":\"bool\"}],\"stateMutability\":\"nonpayable\"}]}";
    let fragments = extract_abis_from_text(text).unwrap();
    assert_eq!(fragments.len(), 1);
    let content = TypeScriptGenerator::generate_file_content(fragments).unwrap().unwrap();
    assert_eq!(
        content,
        "export const transfer = {inputs: [{name: \"to\", type: \"address\"}], \
         name: \"transfer\", outputs: [{name: null, type: \"bool\"}], \
         type: \"function\"} as const;\n\n\
         export default [transfer] as const;"
    );
}

#[test]
fn overloads_get_type_qualified_identifiers_in_input_order() {
    let text = "{\"abi\":[\
        {\"name\":\"transfer\",\"type\":\"function\",\"inputs\":[{\"type\":\"address\"}]},\
        {\"name\":\"transfer\",\"type\":\"function\",\
         \"inputs\":[{\"type\":\"address\"},{\"type\":\"uint256\"}]}]}";
    let fragments = extract_abis_from_text(text).unwrap();
    let content = TypeScriptGenerator::generate_file_content(fragments).unwrap().unwrap();
    assert!(content.contains("export const transfer_address = "));
    assert!(content.contains("export const transfer_address_uint256 = "));
    assert!(content.ends_with("export default [transfer_address, transfer_address_uint256] as const;"));
}

#[test]
fn malformed_document_is_a_json_error() {
    assert_eq!(extract_abis_from_text("not json at all").unwrap_err(), CodegenError::Json);
}

#[test]
fn missing_or_non_array_abi_yields_no_fragments() {
    assert_eq!(extract_abis_from_text("{}").unwrap().len(), 0);
    assert_eq!(extract_abis_from_text("{\"abi\":7}").unwrap().len(), 0);
    assert_eq!(extract_abis_from_text("[1,2]").unwrap().len(), 0);
}

#[test]
fn entries_of_the_wrong_shape_are_skipped() {
    let text = "{\"abi\":[5,{\"type\":\"fallback\"},\
                {\"name\":\"ok\",\"type\":\"function\",\"inputs\":[]},\
                {\"name\":\"bad\",\"type\":7,\"inputs\":[]},\
                {\"name\":\"badinput\",\"type\":\"function\",\"inputs\":[{\"name\":\"x\"}]}]}";
    let fragments = extract_abis_from_text(text).unwrap();
    assert_eq!(fragments.len(), 1);
    assert_eq!(fragments[0].name.as_deref(), Some("ok"));
}

#[test]
fn snake_case_fields_parse_and_camel_case_is_ignored() {
    let text = "{\"abi\":[\
        {\"name\":\"a\",\"type\":\"function\",\"inputs\":[],\"state_mutability\":\"view\"},\
        {\"name\":\"b\",\"type\":\"function\",\"inputs\":[],\"stateMutability\":\"view\"}]}";
    let fragments = extract_abis_from_text(text).unwrap();
    assert_eq!(fragments.len(), 2);
    assert_eq!(fragments[0].state_mutability.as_deref(), Some("view"));
    assert_eq!(fragments[1].state_mutability, None);
}

#[test]
fn indexed_event_inputs_survive_extraction() {
    let text = "{\"abi\":[{\"name\":\"Sent\",\"type\":\"event\",\"anonymous\":false,\
                \"inputs\":[{\"name\":\"from\",\"type\":\"address\",\"indexed\":true}]}]}";
    let fragments = extract_abis_from_text(text).unwrap();
    assert_eq!(fragments[0].inputs[0].indexed, Some(true));
    assert_eq!(fragments[0].anonymous, Some(false));
}

#[test]
fn deduplicate_abis_keeps_first_of_each_key() {
    let make = |name: &str, mutability: Option<&str>| Fragment {
        name: Some(name.to_string()),
        kind: "function".to_string(),
        inputs: vec![],
        outputs: None,
        state_mutability: mutability.map(|s| s.to_string()),
        anonymous: None,
    };
    let unique = deduplicate_abis(vec![
        make("a", Some("view")),
        make("b", None),
        make("a", None),
        make("b", Some("pure")),
    ]);
    assert_eq!(unique.len(), 2);
    assert_eq!(unique[0].name.as_deref(), Some("a"));
    assert_eq!(unique[0].state_mutability.as_deref(), Some("view"));
    assert_eq!(unique[1].name.as_deref(), Some("b"));
    assert_eq!(unique[1].state_mutability, None);
}
