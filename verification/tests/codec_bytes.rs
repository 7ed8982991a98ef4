use ksh_analyzer::ast::{Expr, ExternalDecl, FunctionDef, Qualifier, Stmt, TranslationUnit, VarDecl};
use ksh_analyzer::codec::{analyze_ksh, build_ksh, decode_container};
use ksh_analyzer::errors::KshError;
use ksh_analyzer::types::{Variable, VariableScope, VariableType};

fn push_u32(b: &mut Vec<u8>, x: u32) {
    b.extend_from_slice(&x.to_le_bytes());
}

fn push_lp(b: &mut Vec<u8>, payload: &[u8]) {
    push_u32(b, payload.len() as u32);
    b.extend_from_slice(payload);
}

fn push_blob(b: &mut Vec<u8>, text: &str) {
    push_u32(b, text.len() as u32 + 1);
    b.extend_from_slice(text.as_bytes());
    b.push(0);
}

fn uniform(name: &str, ty_name: &str, array_size: Option<u32>) -> ExternalDecl {
    ExternalDecl::Variable(VarDecl {
        qualifiers: vec![Qualifier::Uniform],
        name: Some(name.to_string()),
        ty_name: ty_name.to_string(),
        array_size,
    })
}

fn stage_tree(uniforms: &[(&str, &str)], used: &[&str]) -> TranslationUnit {
    let mut decls: Vec<ExternalDecl> = uniforms
        .iter()
        .map(|(n, t)| uniform(n, t, None))
        .collect();
    decls.push(ExternalDecl::Function(FunctionDef {
        body: used
            .iter()
            .map(|n| Stmt::Expression(Some(Expr::Variable(n.to_string()))))
            .collect(),
    }));
    TranslationUnit { decls }
}

const VS_SRC: &str = "uniform mat4 MVP; void main(){ gl_Position = MVP * vec4(0); }";
const PS_SRC: &str = "uniform sampler2D Tex; void main(){ gl_FragColor = texture2D(Tex, vec2(0)); }";

fn vs_tree() -> TranslationUnit {
    stage_tree(&[("MVP", "mat4")], &["MVP"])
}

fn ps_tree() -> TranslationUnit {
    stage_tree(&[("Tex", "sampler2D")], &["Tex"])
}

/// The exact bytes the worked example must serialize to.
fn expected_worked_example_bytes() -> Vec<u8> {
    let mut b = Vec::new();
    push_lp(&mut b, b"anim");
    push_u32(&mut b, 2);
    // MVP: scalar mat4 with a 16-word zero default block
    push_lp(&mut b, b"MVP");
    push_u32(&mut b, 0);
    push_u32(&mut b, 20);
    push_u32(&mut b, 1);
    push_u32(&mut b, 16);
    for _ in 0..16 {
        push_u32(&mut b, 0);
    }
    // Tex: scalar sampler2D, no default block at all
    push_lp(&mut b, b"Tex");
    push_u32(&mut b, 0);
    push_u32(&mut b, 43);
    push_u32(&mut b, 1);
    // stages
    push_lp(&mut b, b"anim.vs");
    push_blob(&mut b, VS_SRC);
    push_lp(&mut b, b"anim.ps");
    push_blob(&mut b, PS_SRC);
    // references
    push_u32(&mut b, 1);
    push_u32(&mut b, 0);
    push_u32(&mut b, 1);
    push_u32(&mut b, 1);
    b
}

/// The worked example serializes to exactly the expected byte layout; in
/// particular the scalar sampler gets array_length 1 and no default data.
#[test]
fn worked_example_serializes_byte_exactly() {
    let bytes = build_ksh(
        "anim",
        "anim.vs",
        VS_SRC,
        &vs_tree(),
        "anim.ps",
        PS_SRC,
        &ps_tree(),
    )
    .unwrap();
    assert_eq!(bytes, expected_worked_example_bytes());
}

/// Decode then encode, with the extracted sources unmodified, reproduces
/// the container byte for byte.
#[test]
fn round_trip_is_byte_identical() {
    let original = expected_worked_example_bytes();
    let (vs_name, vs_content, ps_name, ps_content) = analyze_ksh(&original).unwrap();
    assert_eq!(vs_name, "anim.vs");
    assert_eq!(vs_content, VS_SRC);
    assert_eq!(ps_name, "anim.ps");
    assert_eq!(ps_content, PS_SRC);
    let rebuilt = build_ksh(
        "anim",
        &vs_name,
        &vs_content,
        &vs_tree(),
        &ps_name,
        &ps_content,
        &ps_tree(),
    )
    .unwrap();
    assert_eq!(rebuilt, original);
}

/// The full decoded structure: name, table, stages and reference lists.
#[test]
fn decode_exposes_full_structure() {
    let c = decode_container(&expected_worked_example_bytes()).unwrap();
    assert_eq!(c.name, "anim");
    assert_eq!(c.uniforms.len(), 2);
    assert_eq!(c.uniforms[0].name, "MVP");
    assert_eq!(c.uniforms[0].ty, VariableType::Mat4);
    assert_eq!(c.uniforms[0].array_length, None);
    assert_eq!(c.uniforms[0].default_data, vec![0u32; 16]);
    assert_eq!(c.uniforms[1].name, "Tex");
    assert_eq!(c.uniforms[1].ty, VariableType::Sampler2D);
    assert_eq!(c.uniforms[1].default_data, Vec::<u32>::new());
    assert_eq!(c.vertex.name, "anim.vs");
    assert_eq!(c.vertex.source, VS_SRC);
    assert_eq!(c.pixel.name, "anim.ps");
    assert_eq!(c.pixel.source, PS_SRC);
    assert_eq!(c.vs_refs, vec![0]);
    assert_eq!(c.ps_refs, vec![1]);
}

/// An array uniform writes its size in the length field and an empty
/// counted default block.
#[test]
fn array_uniform_layout() {
    let vs = stage_tree(&[("Arr", "vec4")], &["Arr"]);
    let mut decls = vs.decls;
    if let ExternalDecl::Variable(ref mut vd) = decls[0] {
        vd.array_size = Some(4);
    }
    let vs = TranslationUnit { decls };
    let ps = stage_tree(&[], &[]);
    let bytes = build_ksh("a", "a.vs", "x", &vs, "a.ps", "y", &ps).unwrap();
    let mut expected = Vec::new();
    push_lp(&mut expected, b"a");
    push_u32(&mut expected, 1);
    push_lp(&mut expected, b"Arr");
    push_u32(&mut expected, 0);
    push_u32(&mut expected, 4);
    push_u32(&mut expected, 4);
    push_u32(&mut expected, 0);
    push_lp(&mut expected, b"a.vs");
    push_blob(&mut expected, "x");
    push_lp(&mut expected, b"a.ps");
    push_blob(&mut expected, "y");
    push_u32(&mut expected, 1);
    push_u32(&mut expected, 0);
    push_u32(&mut expected, 0);
    assert_eq!(bytes, expected);
}

/// A reference index at or past the table size is a structured error.
#[test]
fn out_of_range_reference_is_corrupt_container() {
    let mut b = Vec::new();
    push_lp(&mut b, b"c");
    push_u32(&mut b, 1);
    push_lp(&mut b, b"U");
    push_u32(&mut b, 0);
    push_u32(&mut b, 0);
    push_u32(&mut b, 1);
    push_u32(&mut b, 1);
    push_u32(&mut b, 0);
    push_lp(&mut b, b"c.vs");
    push_blob(&mut b, "v");
    push_lp(&mut b, b"c.ps");
    push_blob(&mut b, "p");
    push_u32(&mut b, 1);
    push_u32(&mut b, 1); // index 1 into a table of 1 record
    assert_eq!(analyze_ksh(&b), Err(KshError::CorruptContainer));
}

/// A trailer of leftover words, even a ragged one, is read and ignored.
#[test]
fn trailer_is_ignored() {
    let mut b = expected_worked_example_bytes();
    push_u32(&mut b, 0xdeadbeef);
    push_u32(&mut b, 7);
    b.push(0x55); // a ragged final byte
    let (vs_name, vs_content, _, _) = analyze_ksh(&b).unwrap();
    assert_eq!(vs_name, "anim.vs");
    assert_eq!(vs_content, VS_SRC);
}

/// Input that ends inside an announced field is truncated.
#[test]
fn truncated_input_error() {
    let mut b = Vec::new();
    push_u32(&mut b, 10); // announces 10 name bytes
    b.extend_from_slice(b"abc");
    assert_eq!(analyze_ksh(&b), Err(KshError::TruncatedInput));
    assert_eq!(analyze_ksh(&[1, 0]), Err(KshError::TruncatedInput));
}

/// A length-prefixed string holding invalid UTF-8 is rejected.
#[test]
fn invalid_utf8_error() {
    let mut b = Vec::new();
    push_lp(&mut b, &[0xff, 0xfe]);
    assert_eq!(analyze_ksh(&b), Err(KshError::InvalidEncoding));
}

/// A container name outside ASCII decodes to the same characters.
#[test]
fn non_ascii_name_decodes() {
    let mut b = Vec::new();
    push_lp(&mut b, "café".as_bytes());
    push_u32(&mut b, 0);
    push_lp(&mut b, b"v");
    push_blob(&mut b, "");
    push_lp(&mut b, b"p");
    push_blob(&mut b, "");
    push_u32(&mut b, 0);
    push_u32(&mut b, 0);
    let c = decode_container(&b).unwrap();
    assert_eq!(c.name, "café");
    assert_eq!(c.vertex.source, "");
}

/// An unknown scope id and an unknown type id are both invalid values.
#[test]
fn invalid_scope_and_type_ids() {
    let mut b = Vec::new();
    push_lp(&mut b, b"c");
    push_u32(&mut b, 1);
    push_lp(&mut b, b"U");
    push_u32(&mut b, 5); // scope must be 0
    assert_eq!(analyze_ksh(&b), Err(KshError::InvalidValue));

    let mut b = Vec::new();
    push_lp(&mut b, b"c");
    push_u32(&mut b, 1);
    push_lp(&mut b, b"U");
    push_u32(&mut b, 0);
    push_u32(&mut b, 7); // not one of the six type ids
    assert_eq!(analyze_ksh(&b), Err(KshError::InvalidValue));
}

/// The record-level array rule on decode: a length field of 1 is a scalar,
/// anything above is an array size.
#[test]
fn decode_array_length_rule() {
    let mut b = Vec::new();
    push_lp(&mut b, b"c");
    push_u32(&mut b, 2);
    push_lp(&mut b, b"S");
    push_u32(&mut b, 0);
    push_u32(&mut b, 2); // vec2
    push_u32(&mut b, 1); // scalar
    push_u32(&mut b, 2);
    push_u32(&mut b, 9);
    push_u32(&mut b, 8);
    push_lp(&mut b, b"A");
    push_u32(&mut b, 0);
    push_u32(&mut b, 3); // vec3
    push_u32(&mut b, 6); // array of 6
    push_u32(&mut b, 0);
    push_lp(&mut b, b"c.vs");
    push_blob(&mut b, "v");
    push_lp(&mut b, b"c.ps");
    push_blob(&mut b, "p");
    push_u32(&mut b, 0);
    push_u32(&mut b, 0);
    let c = decode_container(&b).unwrap();
    assert_eq!(c.uniforms[0].array_length, None);
    assert_eq!(c.uniforms[0].default_data, vec![9, 8]);
    assert_eq!(c.uniforms[1].array_length, Some(6));
    assert_eq!(c.uniforms[1].default_data, Vec::<u32>::new());
}

/// The fixed type table: ids, names and default-data arities.
#[test]
fn type_table_values() {
    let table = [
        (VariableType::Float, 0u32, "float", 1usize),
        (VariableType::Vec2, 2, "vec2", 2),
        (VariableType::Vec3, 3, "vec3", 3),
        (VariableType::Vec4, 4, "vec4", 4),
        (VariableType::Mat4, 20, "mat4", 16),
        (VariableType::Sampler2D, 43, "sampler2D", 0),
    ];
    for (ty, id, name, arity) in table {
        assert_eq!(ty.id(), id);
        assert_eq!(ty.name(), name);
        assert_eq!(ty.default_data_length(), arity);
        assert_eq!(VariableType::from_id(id), Ok(ty));
        assert_eq!(VariableType::from_name(name), Ok(ty));
    }
    assert!(VariableType::from_id(1).is_err());
    assert!(VariableType::from_name("mat3").is_err());
    assert!(VariableScope::from_u32(0).is_ok());
    assert!(VariableScope::from_u32(1).is_err());
}

/// The record mutators mirror the numeric fields of the format.
#[test]
fn variable_record_setters() {
    let mut v = Variable::new();
    assert_eq!(v.name, "");
    assert_eq!(v.ty, VariableType::Float);
    assert_eq!(v.array_length, None);
    assert!(v.set_scope(0).is_ok());
    assert_eq!(v.set_scope(3), Err(KshError::InvalidValue));
    assert!(v.set_type(20).is_ok());
    assert_eq!(v.get_type_id(), 20);
    assert_eq!(v.default_data_length(), 16);
    assert_eq!(v.set_type(9), Err(KshError::InvalidValue));
    assert_eq!(v.get_type_id(), 20);
}

/// An empty stage blob stays empty: there is no byte to strip.
#[test]
fn empty_blob_decodes_to_empty_source() {
    let mut b = Vec::new();
    push_lp(&mut b, b"c");
    push_u32(&mut b, 0);
    push_lp(&mut b, b"c.vs");
    push_u32(&mut b, 0); // zero-length blob, no terminator byte
    push_lp(&mut b, b"c.ps");
    push_blob(&mut b, "p");
    push_u32(&mut b, 0);
    push_u32(&mut b, 0);
    let c = decode_container(&b).unwrap();
    assert_eq!(c.vertex.source, "");
    assert_eq!(c.pixel.source, "p");
}

/// A multi-byte final character is stripped whole, not byte by byte.
#[test]
fn decode_strips_final_character() {
    let mut b = Vec::new();
    push_lp(&mut b, b"c");
    push_u32(&mut b, 0);
    push_lp(&mut b, b"c.vs");
    push_lp(&mut b, "ab€".as_bytes()); // no NUL: the last character goes
    push_lp(&mut b, b"c.ps");
    push_blob(&mut b, "p");
    push_u32(&mut b, 0);
    push_u32(&mut b, 0);
    let c = decode_container(&b).unwrap();
    assert_eq!(c.vertex.source, "ab");
}

/// Each error variant carries a non-empty description.
#[test]
fn error_descriptions() {
    let all = [
        KshError::TruncatedInput,
        KshError::InvalidEncoding,
        KshError::InvalidValue,
        KshError::UnsupportedType,
        KshError::ParseError,
        KshError::CorruptContainer,
        KshError::InternalInconsistency,
    ];
    for e in all {
        assert!(!e.describe().is_empty());
    }
    assert_eq!(
        KshError::TruncatedInput.describe(),
        "input ends before the announced data"
    );
}

/// The sample pair: each stage declares a uniform that no function body
/// mentions, so the merged table and both reference lists are empty.
#[test]
fn unused_uniforms_build_empty_table() {
    let vs_src = "uniform mat4 u_ModelViewProjectionMatrix;\nvoid main() {}\n";
    let ps_src = "uniform sampler2D u_Texture;\nvoid main() {}\n";
    let vs = stage_tree(&[("u_ModelViewProjectionMatrix", "mat4")], &[]);
    let ps = stage_tree(&[("u_Texture", "sampler2D")], &[]);
    let bytes = build_ksh("test", "test.vs", vs_src, &vs, "test.ps", ps_src, &ps).unwrap();
    let c = decode_container(&bytes).unwrap();
    assert!(c.uniforms.is_empty());
    assert!(c.vs_refs.is_empty());
    assert!(c.ps_refs.is_empty());
    assert_eq!(c.vertex.source, vs_src);
    assert_eq!(c.pixel.source, ps_src);
}
