use ppatch::geometry::{check_geometry, FieldBlock};
use ppatch::paramdef::{
    DefBaseRustType, DefBaseType, DefField, DefType, DefTypeError, DefTypeModifier, Paramdef,
};
use ppatch::paramdex::ParamdexGitFetch;

fn field(def: &str, first: Option<u64>, removed: Option<u64>) -> DefField {
    DefField {
        field_def: DefType::parse(def).unwrap(),
        display_name: None,
        enum_name: None,
        description: None,
        edit_flags: None,
        sort_id: None,
        first_version: first,
        removed_version: removed,
    }
}

fn def(fields: Vec<DefField>) -> Paramdef {
    Paramdef {
        param_type: "TEST_PARAM_ST".to_string(),
        data_version: 1,
        big_endian: false,
        unicode: true,
        format_version: 203,
        fields,
        bit_offsets: Vec::new(),
        size_bytes: None,
    }
}

#[test]
fn parses_field_definitions() {
    let t = DefType::parse("u8 flags: 3").unwrap();
    assert_eq!(t.name, "flags");
    assert_eq!(t.base_type, DefBaseType::U8);
    assert_eq!(t.modifier, DefTypeModifier::Bitfield(3));
    let t = DefType::parse("fixstr name[0x20] = \"\"").unwrap();
    assert_eq!(t.modifier, DefTypeModifier::Array(32));
    assert_eq!(t.base_type, DefBaseType::Fixstr);
    let t = DefType::parse("s32 value = 0").unwrap();
    assert_eq!(t.modifier, DefTypeModifier::Plain);
    assert_eq!(DefType::parse("bogus x").unwrap_err(), DefTypeError::UnknownBaseType);
    assert_eq!(DefType::parse("u8").unwrap_err(), DefTypeError::NotAFieldDefinition);
    assert_eq!(DefType::parse("u8 x[zz]").unwrap_err(), DefTypeError::InvalidInteger);
}

#[test]
fn base_types_map_to_machine_types() {
    assert_eq!(DefBaseType::from_str("fixstrW"), Some(DefBaseType::FixstrW));
    assert_eq!(DefBaseType::from_str("u64"), None);
    assert_eq!(DefBaseType::FixstrW.rust_type(), DefBaseRustType::I16);
    assert_eq!(DefBaseType::Dummy8.size_bytes(), 1);
    assert_eq!(DefBaseType::F32.alignment(), 4);
    assert_eq!(DefBaseRustType::I16.to_str(), "i16");
    assert!(DefTypeModifier::Array(2).is_array());
    assert!(!DefTypeModifier::Array(2).is_bitfield());
    assert!(DefTypeModifier::Bitfield(2).is_bitfield());
}

#[test]
fn lays_out_bitfields_and_alignment() {
    let mut d = def(vec![
        field("u8 a", None, None),
        field("u8 b: 3", None, None),
        field("u8 c: 5", None, None),
        field("u8 d: 1", None, None),
        field("u16 e", None, None),
        field("u32 f", None, None),
        field("u8 g", None, None),
    ]);
    d.compute_field_offsets(u64::MAX);
    assert_eq!(
        d.bit_offsets,
        vec![Some(0), Some(8), Some(11), Some(16), Some(32), Some(64), Some(96)]
    );
    assert_eq!(d.size_bytes, Some(16));
}

#[test]
fn version_filtered_fields_get_no_offset() {
    let mut d = def(vec![
        field("u32 a", None, None),
        field("u32 gone", Some(5), None),
        field("u32 old", None, Some(3)),
        field("u16 b", None, None),
    ]);
    d.compute_field_offsets(4);
    assert_eq!(d.bit_offsets, vec![Some(0), None, None, Some(32)]);
    assert_eq!(d.size_bytes, Some(8));
}

#[test]
fn lowers_fields_to_word_blocks() {
    let mut d = def(vec![
        field("u16 a", None, None),
        field("u8 b: 4", None, None),
        field("u8 c[6]", None, None),
        field("u32 e", None, None),
    ]);
    d.compute_field_offsets(u64::MAX);
    assert_eq!(d.bit_offsets, vec![Some(0), Some(16), Some(24), Some(96)]);
    let blocks = d.field_blocks().unwrap();
    let expect = vec![
        FieldBlock { field_start: 0, offset: 0, mask: 0x0000_FFFF },
        FieldBlock { field_start: 1, offset: 0, mask: 0x000F_0000 },
        FieldBlock { field_start: 2, offset: 0, mask: 0xFF00_0000 },
        FieldBlock { field_start: 2, offset: 1, mask: 0xFFFF_FFFF },
        FieldBlock { field_start: 2, offset: 2, mask: 0x0000_00FF },
        FieldBlock { field_start: 5, offset: 3, mask: 0xFFFF_FFFF },
    ];
    assert_eq!(blocks, expect);
    assert!(check_geometry(&blocks, 4));
}

#[test]
fn fetch_builder_collects_settings() {
    let mut f = ParamdexGitFetch::new("https://example.invalid/repo.git");
    f.branch("v1").paramdex_path("Assets/Paramdex").games(&["DS3", "ER"]);
    assert_eq!(f.branch.as_deref(), Some("v1"));
    assert_eq!(f.paramdex_path, "Assets/Paramdex");
    assert_eq!(f.games, vec!["DS3".to_string(), "ER".to_string()]);
    assert_eq!(ParamdexGitFetch::new("u").paramdex_path, ".");
}
