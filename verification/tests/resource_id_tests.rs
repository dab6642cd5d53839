use rpkg_rs::misc::resource_id::{ResourceID, ResourceIDError};
use rpkg_rs::resource::reference_flags::{
    ReferenceType, ResourceReferenceFlags, ResourceReferenceFlagsV1, ResourceReferenceFlagsV2,
};
use rpkg_rs::resource::runtime_resource_id::{RuntimeResourceID, RuntimeResourceIDError};
use std::str::FromStr;

#[test]
fn test_parameters() {
    let mut resource_id = ResourceID::from_str_checked(
        "[assembly:/_pro/_test/usern/materialclasses/ball_of_water_b.materialclass].fx",
    )
    .unwrap();
    resource_id.add_parameter("lmao");
    assert_eq!(resource_id.resource_path(), "[assembly:/_pro/_test/usern/materialclasses/ball_of_water_b.materialclass](lmao).pc_fx");
    assert_eq!(resource_id.parameters(), ["lmao".to_string()]);

    resource_id.add_parameter("lmao2");
    assert_eq!(resource_id.resource_path(), "[assembly:/_pro/_test/usern/materialclasses/ball_of_water_b.materialclass](lmao,lmao2).pc_fx");
}

#[test]
fn test_get_inner_most_resource_path() {
    let resource_id = ResourceID::from_str_checked(
        "[assembly:/_pro/_test/usern/materialclasses/ball_of_water_b.materialclass].fx",
    )
    .unwrap();
    let inner_path = resource_id.inner_most_resource_path();
    assert_eq!(
        inner_path.resource_path(),
        "[assembly:/_pro/_test/usern/materialclasses/ball_of_water_b.materialclass].pc_fx"
    );

    let resource_id = ResourceID::from_str_checked("[[assembly:/_pro/_test/usern/materialclasses/ball_of_water_b.materialclass].fx](dx11).mate").unwrap();
    let inner_path = resource_id.inner_most_resource_path();
    assert_eq!(
        inner_path.resource_path(),
        "[assembly:/_pro/_test/usern/materialclasses/ball_of_water_b.materialclass].pc_fx"
    );

    let resource_id = ResourceID::from_str_checked("[[[assembly:/_pro/_test/usern/materialclasses/ball_of_water_b.materialclass].fx](dx11).mate](dx12).pc_mate").unwrap();
    let inner_path = resource_id.inner_most_resource_path();
    assert_eq!(
        inner_path.resource_path(),
        "[assembly:/_pro/_test/usern/materialclasses/ball_of_water_b.materialclass].pc_fx"
    );
}

#[test]
fn text_get_inner_resource_path() {
    let resource_id = ResourceID::from_str_checked(
        "[assembly:/_pro/_test/usern/materialclasses/ball_of_water_b.materialclass].fx",
    )
    .unwrap();
    let inner_path = resource_id.inner_resource_path();
    assert_eq!(
        inner_path.resource_path(),
        "[assembly:/_pro/_test/usern/materialclasses/ball_of_water_b.materialclass].pc_fx"
    );

    let resource_id = ResourceID::from_str_checked("[[assembly:/_pro/_test/usern/materialclasses/ball_of_water_b.materialclass].fx](dx11).mate").unwrap();
    let inner_path = resource_id.inner_resource_path();
    assert_eq!(
        inner_path.resource_path(),
        "[assembly:/_pro/_test/usern/materialclasses/ball_of_water_b.materialclass].pc_fx"
    );

    let resource_id = ResourceID::from_str_checked("[[[assembly:/_pro/_test/usern/materialclasses/ball_of_water_b.materialclass].fx](dx11).mate](dx12).pc_mate").unwrap();
    let inner_path = resource_id.inner_resource_path();
    assert_eq!(inner_path.resource_path(), "[[assembly:/_pro/_test/usern/materialclasses/ball_of_water_b.materialclass].fx](dx11).pc_mate");
}

#[test]
fn test_flag_conversion_801f() {
    let flag_v1 = ResourceReferenceFlagsV1::from_bits(0x80);
    let flag_v2 = ResourceReferenceFlagsV2::from_bits(0x1F);

    assert_eq!(flag_v1, ResourceReferenceFlags::V2(flag_v2).to_v1());
    assert_eq!(flag_v2, ResourceReferenceFlags::V1(flag_v1).to_v2());
}

#[test]
fn test_flag_conversion_005f() {
    let flag_v1 = ResourceReferenceFlagsV1::from_bits(0x00);
    let flag_v2 = ResourceReferenceFlagsV2::from_bits(0x5F);

    assert_eq!(flag_v1, ResourceReferenceFlags::V2(flag_v2).to_v1());
    assert_eq!(flag_v2, ResourceReferenceFlags::V1(flag_v1).to_v2());
}

#[test]
fn test_rrid_conversions() {
    assert_eq!(
        RuntimeResourceID::from(0x00123456789ABCDE),
        0x00123456789ABCDE
    );
    assert_eq!(RuntimeResourceID::invalid(), 0x00FFFFFFFFFFFFFF);
    assert_eq!(
        RuntimeResourceID::from_raw_string("hello world"),
        0x00B63BBBE01EEED0
    );
    assert_eq!(
        RuntimeResourceID::from_hex_string("0x00123456789ABCDE").unwrap(),
        0x00123456789ABCDE
    );
    assert_eq!(
        RuntimeResourceID::from_hex_string("00123456789ABCDE").unwrap(),
        0x00123456789ABCDE
    );

    let rid = ResourceID::from_str("[assembly:/_test/lib.a?/test_image.png].pc_webp").unwrap();
    assert_eq!(
        RuntimeResourceID::from_resource_id(&rid),
        0x00290D5B143172A3
    );
    assert_eq!(rid.into_rrid(), 0x00290D5B143172A3);
}

#[test]
fn rrid_out_of_range_collapses_to_the_sentinel() {
    assert_eq!(RuntimeResourceID::from(0x00FF_FFFF_FFFF_FFFF).id, 0x00FF_FFFF_FFFF_FFFF);
    assert_eq!(RuntimeResourceID::from(0x0100_0000_0000_0000).id, 0x00FF_FFFF_FFFF_FFFF);
    assert_eq!(RuntimeResourceID::from(u64::MAX).id, 0x00FF_FFFF_FFFF_FFFF);
    assert_eq!(RuntimeResourceID::from(0x00FF_FFFF_FFFF_FFFE).id, 0x00FF_FFFF_FFFF_FFFE);
    assert!(RuntimeResourceID::from(0x00FF_FFFF_FFFF_FFFE).is_valid());
    assert!(!RuntimeResourceID::from(u64::MAX).is_valid());
    assert!(!RuntimeResourceID::invalid().is_valid());
    assert!(RuntimeResourceID::default().is_valid());
}

#[test]
fn rrid_hex_strings() {
    assert_eq!(
        RuntimeResourceID::from(0x00123456789ABCDE).to_hex_string(),
        "00123456789ABCDE"
    );
    assert_eq!(RuntimeResourceID::from(0).to_hex_string(), "0000000000000000");
    assert_eq!(RuntimeResourceID::from(0xabc).to_hex_string(), "0000000000000ABC");
    assert_eq!(
        RuntimeResourceID::from_hex_string("00abcdef00ABCDEF").unwrap().id,
        0x00abcdef00abcdef
    );
    assert_eq!(RuntimeResourceID::from_hex_string("+1f").unwrap().id, 0x1f);
    assert!(matches!(
        RuntimeResourceID::from_hex_string("00FFFFFFFFFFFFFF"),
        Err(RuntimeResourceIDError::InvalidID(0x00FF_FFFF_FFFF_FFFF))
    ));
    assert!(matches!(
        RuntimeResourceID::from_hex_string("0xFFFFFFFFFFFFFFFF"),
        Err(RuntimeResourceIDError::InvalidID(u64::MAX))
    ));
    for bad in ["", "0x", "xyz", "12 34", "1FFFFFFFFFFFFFFFF", "-1", "+", "0X12"] {
        match RuntimeResourceID::from_hex_string(bad) {
            Err(RuntimeResourceIDError::ParseError(text)) => {
                assert_eq!(text, bad.strip_prefix("0x").unwrap_or(bad))
            }
            other => panic!("{:?} gave {:?}", bad, other),
        }
    }
}

#[test]
fn resource_id_parse_normalizes() {
    let rid = ResourceID::parse("[Assembly:/A/B.Entity].pc_EntityType").unwrap();
    assert_eq!(rid.uri, "[assembly:/a/b.entity].entitytype");
    assert_eq!(rid.resource_path(), "[assembly:/a/b.entity].pc_entitytype");
    // Parsing what was formatted gives the identifier back.
    assert_eq!(ResourceID::parse(&rid.resource_path()).unwrap(), rid);
    // Control characters go.
    let rid = ResourceID::parse("[assembly:/a\t/b\n.x].y\r").unwrap();
    assert_eq!(rid.uri, "[assembly:/a/b.x].y");
    // The platform tag goes only where it follows a dot.
    let rid = ResourceID::parse("[assembly:/npc_guard.entity].pc_entitytype").unwrap();
    assert_eq!(rid.uri, "[assembly:/npc_guard.entity].entitytype");
    assert!(rid.is_valid());
    assert!(!rid.is_empty());
    assert!(ResourceID::new().is_empty());
    assert!(!ResourceID::default().is_valid());
}

#[test]
fn resource_id_parse_rejects_other_shapes() {
    for bad in [
        "",
        "assembly:/a/b.c",
        "[assembly:/a/b.c",
        "[assembly:/a/*.c].d",
        "[assembly:/unknown/b.c].d",
        "[assembly:/UNKNOWN/b.c].d",
        " [assembly:/a/b.c].d",
    ] {
        assert!(
            matches!(ResourceID::parse(bad), Err(ResourceIDError::InvalidFormat(_))),
            "{:?}",
            bad
        );
    }
}

#[test]
fn resource_id_derived_and_aspect() {
    let resource_id = ResourceID::from_str_checked("[assembly:/_pro/_test/usern/materialclasses/ball_of_water_b.materialclass].pc_fx").unwrap();
    let derived = resource_id.create_derived("dx11", "mate");
    assert_eq!(derived.resource_path(), "[[assembly:/_pro/_test/usern/materialclasses/ball_of_water_b.materialclass].fx](dx11).pc_mate");
    let plain = resource_id.create_derived("", "mate");
    assert_eq!(plain.uri, "[[assembly:/_pro/_test/usern/materialclasses/ball_of_water_b.materialclass].fx].mate");

    let resource_id =
        ResourceID::from_str_checked("[assembly:/templates/aspectdummy.aspect].pc_entitytype")
            .unwrap();
    let sub_id_1 =
        ResourceID::from_str_checked("[assembly:/_pro/effects/geometry/water.prim].pc_entitytype")
            .unwrap();
    let sub_id_2 =
        ResourceID::from_str_checked("[modules:/zdisablecameracollisionaspect.class].entitytype")
            .unwrap();
    let aspect = resource_id.create_aspect(vec![&sub_id_1, &sub_id_2]);
    assert_eq!(aspect.resource_path(), "[assembly:/templates/aspectdummy.aspect]([assembly:/_pro/effects/geometry/water.prim].entitytype,[modules:/zdisablecameracollisionaspect.class].entitytype).pc_entitytype");
    assert_eq!(
        aspect.parameters(),
        [
            "[assembly:/_pro/effects/geometry/water.prim].entitytype".to_string(),
            "[modules:/zdisablecameracollisionaspect.class].entitytype".to_string()
        ]
    );
    assert!(resource_id.parameters().is_empty());
}

#[test]
fn resource_id_protocol_and_path() {
    let rid = ResourceID::parse("[assembly:/_pro/effects/water.prim].pc_entitytype").unwrap();
    assert_eq!(rid.protocol(), Some("assembly".to_string()));
    assert_eq!(rid.path(), Some("assembly:/_pro/effects".to_string()));
    let nested = ResourceID::parse("[[assembly:/a/b.c].d](x).e").unwrap();
    assert_eq!(nested.protocol(), Some("assembly".to_string()));
    // The part before the last slash of a nested identifier holds no dot here.
    assert_eq!(nested.path(), Some("[assembly:/a".to_string()));
    let dotted = ResourceID::parse("[assembly:/a.b/c.d].e").unwrap();
    assert_eq!(dotted.path(), None);
    let bare = ResourceID::parse("[x].y").unwrap();
    assert_eq!(bare.protocol(), None);
    assert_eq!(bare.path(), None);
}

#[test]
fn reference_flag_conversions_hold_for_every_byte() {
    for bits in 0..=255u8 {
        let new = ResourceReferenceFlagsV2::from_bits(bits);
        let legacy = ResourceReferenceFlags::V2(new).to_v1();
        assert_eq!(legacy.install_dependency(), new.reference_type() == ReferenceType::INSTALL);
        assert_eq!(legacy.weak_reference(), new.reference_type() == ReferenceType::WEAK);
        assert_eq!(legacy.runtime_acquired(), new.runtime_acquired());
        assert_eq!(legacy.into_bits() & 0b0111_1001, 0);

        let legacy = ResourceReferenceFlagsV1::from_bits(bits);
        let new = ResourceReferenceFlags::V1(legacy).to_v2();
        assert_eq!(new.language_code(), 0x1F);
        assert_eq!(new.runtime_acquired(), legacy.runtime_acquired());
        let expected = if legacy.install_dependency() {
            ReferenceType::INSTALL
        } else if legacy.weak_reference() {
            ReferenceType::WEAK
        } else {
            ReferenceType::NORMAL
        };
        assert_eq!(new.reference_type(), expected);
        assert_eq!(ResourceReferenceFlags::V1(legacy).reference_type(), expected);
        assert_eq!(ResourceReferenceFlags::V1(legacy).language_code(), 0x1F);
    }
    let flags = ResourceReferenceFlagsV1::from_bits(0b1111_0110);
    assert!(flags.runtime_acquired());
    assert!(flags.weak_reference());
    assert!(flags.type_of_streaming_entity());
    assert!(flags.state_streamed());
    assert!(flags.media_streamed());
    assert!(flags.install_dependency());
    let flags = ResourceReferenceFlagsV2::from_bits(0b1010_0101);
    assert_eq!(flags.language_code(), 5);
    assert!(flags.runtime_acquired());
    assert_eq!(flags.reference_type(), ReferenceType::WEAK);
    assert_eq!(
        ResourceReferenceFlagsV2::from_bits(0b1110_0000).reference_type(),
        ReferenceType::NORMAL
    );
    assert_eq!(
        ResourceReferenceFlagsV2::new()
            .with_reference_type(ReferenceType::WEAK)
            .with_runtime_acquired(true)
            .with_language_code(3)
            .into_bits(),
        0b1010_0011
    );
}

#[test]
fn resource_id_parse_strips_control_characters_only() {
    // A character above 0x1F stays, whatever its low byte is.
    let rid = ResourceID::parse("[assembly:/a\u{100}b.c].d").unwrap();
    assert_eq!(rid.uri, "[assembly:/a\u{100}b.c].d");
    // So a text that starts with such a character does not start with `[`.
    assert!(matches!(
        ResourceID::parse("\u{100}[]"),
        Err(ResourceIDError::InvalidFormat(_))
    ));
    assert!(matches!(
        ResourceID::from_str("\u{11f}[a.b].c"),
        Err(ResourceIDError::InvalidFormat(_))
    ));
    // Control characters before the `[` go, and the text is accepted.
    assert_eq!(ResourceID::parse("\u{1f}\n[a.b].c").unwrap().uri, "[a.b].c");
}

#[test]
fn resource_path_is_parsed_back_with_a_tag_of_its_own() {
    // One tag goes, so an identifier may keep `pc_` behind its last dot.
    let rid = ResourceID::parse("[a/b].pc_pc_x").unwrap();
    assert_eq!(rid.uri, "[a/b].pc_x");
    assert_eq!(rid.resource_path(), "[a/b].pc_pc_x");
    assert_eq!(ResourceID::parse(&rid.resource_path()).unwrap(), rid);
    assert_eq!(ResourceID::from_str(&rid.resource_path()).unwrap(), rid);
}
