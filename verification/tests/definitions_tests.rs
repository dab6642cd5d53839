use rpkg_rs::encryption::xtea::Xtea;
use rpkg_rs::resource::pdefs::h2016_parser::H2016Parser;
use rpkg_rs::resource::pdefs::hm2_parser::HM2Parser;
use rpkg_rs::resource::pdefs::hm3_parser::HM3Parser;
use rpkg_rs::resource::pdefs::{
    PackageDefinitionError, PackageDefinitionParser, PackageDefinitionSource, PartitionId,
    PartitionInfo, PartitionType,
};
use rpkg_rs::WoaVersion;

fn id(part_type: PartitionType, index: usize) -> PartitionId {
    PartitionId { part_type, index }
}

fn roots(info: &PartitionInfo) -> Vec<String> {
    info.roots().iter().map(|r| r.uri.clone()).collect()
}

const HM3: &str = "// comment\n\
@partition name=super parent=none type=standard patchlevel=3\n\
[assembly:/_pro/scenes/boot.entity].entitytemplate\n\
[assembly:/_pro/other.brick].pc_entitytype\r\n\
@partition name=extra parent=super type=addon patchlevel=0\n\
\n\
[assembly:/dlc/one.entity].entitytemplate\n\
@partition name=lost parent=nobody type=whatever patchlevel=12\n";

#[test]
fn hm3_definitions() {
    let infos = HM3Parser::parse(HM3.as_bytes()).unwrap();
    assert_eq!(infos.len(), 3);
    assert_eq!(infos[0].name(), &Some("super".to_string()));
    assert_eq!(infos[0].id(), id(PartitionType::Standard, 0));
    assert_eq!(infos[0].parent(), &None);
    assert_eq!(infos[0].max_patch_level(), 3);
    assert_eq!(
        roots(&infos[0]),
        vec![
            "[assembly:/_pro/scenes/boot.entity].entitytemplate",
            // The extension of a root is letters only, so a platform tag cuts it short.
            "[assembly:/_pro/other.brick].pc"
        ]
    );
    assert_eq!(infos[1].name(), &Some("extra".to_string()));
    assert_eq!(infos[1].id(), id(PartitionType::Addon, 1));
    assert_eq!(infos[1].parent(), &Some(id(PartitionType::Standard, 0)));
    assert_eq!(infos[1].max_patch_level(), 0);
    assert_eq!(roots(&infos[1]), vec!["[assembly:/dlc/one.entity].entitytemplate"]);
    assert_eq!(infos[2].id(), id(PartitionType::Standard, 2));
    assert_eq!(infos[2].parent(), &None);
    assert_eq!(infos[2].max_patch_level(), 12);
    assert!(roots(&infos[2]).is_empty());

    let same = PackageDefinitionSource::from_version(WoaVersion::HM3, HM3.as_bytes().to_vec())
        .read()
        .unwrap();
    assert_eq!(same.len(), 3);
    let custom = PackageDefinitionSource::Custom(infos).read().unwrap();
    assert_eq!(custom.len(), 3);
    assert_eq!(custom[1].id(), id(PartitionType::Addon, 1));
}

#[test]
fn hm3_root_before_partition_is_refused() {
    let text = "[assembly:/_pro/scenes/boot.entity].entitytemplate\n@partition name=a parent=b type=standard patchlevel=1\n";
    assert!(matches!(
        HM3Parser::parse(text.as_bytes()),
        Err(PackageDefinitionError::UnexpectedFormat(_))
    ));
    let text = "@partition name=a parent=b type=standard patchlevel=x\n";
    assert!(matches!(
        HM3Parser::parse(text.as_bytes()),
        Err(PackageDefinitionError::UnexpectedFormat(_))
    ));
}

const HM2: &str = "// --- Chunk 00 Boot\n\
//\n\
@chunk patchlevel=2\n\
  [assembly:/_pro/boot.entity].entitytemplate  \n\
   // [assembly:/_pro/commented.entity].entitytemplate\n\
// --- DLC 01 Paris\n\
@dlc patchlevel=0\n\
[assembly:/_pro/paris.entity].entitytemplate\n\
@chunk patchlevel=7\n";

#[test]
fn hm2_definitions() {
    let infos = HM2Parser::parse(HM2.as_bytes()).unwrap();
    assert_eq!(infos.len(), 3);
    assert_eq!(infos[0].name(), &Some("Boot".to_string()));
    assert_eq!(infos[0].id(), id(PartitionType::Standard, 0));
    assert_eq!(infos[0].parent(), &None);
    assert_eq!(infos[0].max_patch_level(), 2);
    assert_eq!(roots(&infos[0]), vec!["[assembly:/_pro/boot.entity].entitytemplate"]);
    assert_eq!(infos[1].name(), &Some("Paris".to_string()));
    assert_eq!(infos[1].id(), id(PartitionType::Dlc, 0));
    assert_eq!(infos[1].parent(), &Some(id(PartitionType::Standard, 0)));
    assert_eq!(roots(&infos[1]), vec!["[assembly:/_pro/paris.entity].entitytemplate"]);
    assert_eq!(infos[2].name(), &None);
    assert_eq!(infos[2].id(), id(PartitionType::Standard, 1));
    assert_eq!(infos[2].max_patch_level(), 7);
    let same = PackageDefinitionSource::from_version(WoaVersion::HM2, HM2.as_bytes().to_vec())
        .read()
        .unwrap();
    assert_eq!(same.len(), 3);
}

const H2016: &str = "## --- Chunk 00 Boot\n\
#chunk patchlevel=1\n\
[assembly:/_pro/boot.entity].entitytemplate\n\
## --- DLC01 Paris\n\
#dlc patchlevel=4\n\
[assembly:/_pro/paris.entity].entitytemplate\n\
#langdlc en\n\
[assembly:/_pro/english.entity].entitytemplate\n";

#[test]
fn h2016_definitions() {
    let infos = H2016Parser::parse(H2016.as_bytes()).unwrap();
    assert_eq!(infos.len(), 4);
    assert_eq!(infos[0].name(), &Some("Boot".to_string()));
    assert_eq!(infos[0].id(), id(PartitionType::Standard, 0));
    assert_eq!(infos[0].max_patch_level(), 1);
    assert_eq!(infos[1].name(), &Some("Paris".to_string()));
    assert_eq!(infos[1].id(), id(PartitionType::Dlc, 0));
    assert_eq!(infos[1].parent(), &Some(id(PartitionType::Standard, 0)));
    assert_eq!(infos[1].max_patch_level(), 4);
    // In this dialect the name of a DLC follows its number without a space.
    let spaced = H2016Parser::parse(b"## --- DLC 01 Paris\n#dlc patchlevel=4\n").unwrap();
    assert_eq!(spaced[0].name(), &None);
    assert_eq!(infos[2].id(), id(PartitionType::LanguageStandard("en".to_string()), 0));
    assert_eq!(infos[2].parent(), &Some(id(PartitionType::Standard, 0)));
    assert_eq!(infos[2].name(), &None);
    assert_eq!(infos[3].id(), id(PartitionType::LanguageDlc("en".to_string()), 0));
    assert_eq!(infos[3].parent(), &Some(id(PartitionType::Dlc, 0)));
    // The root goes to the partition opened last, which is the last language variant.
    assert_eq!(roots(&infos[3]), vec!["[assembly:/_pro/english.entity].entitytemplate"]);
    assert_eq!(roots(&infos[1]), vec!["[assembly:/_pro/paris.entity].entitytemplate"]);
    let same =
        PackageDefinitionSource::from_version(WoaVersion::HM2016, H2016.as_bytes().to_vec())
            .read()
            .unwrap();
    assert_eq!(same.len(), 4);
}

#[test]
fn encrypted_definitions_are_decrypted() {
    let encrypted = Xtea::encrypt_text_file(HM3.to_string()).unwrap();
    let infos = HM3Parser::parse(&encrypted).unwrap();
    assert_eq!(infos.len(), 3);
    assert_eq!(infos[1].parent(), &Some(id(PartitionType::Standard, 0)));

    let mut broken = encrypted.clone();
    let last = broken.len() - 1;
    broken[last] ^= 0x55;
    assert!(matches!(
        HM3Parser::parse(&broken),
        Err(PackageDefinitionError::DecryptionError(_))
    ));
    assert!(matches!(
        HM3Parser::parse(&[0xff, 0xfe, 0x00]),
        Err(PackageDefinitionError::TextEncodingError)
    ));
    assert!(HM3Parser::parse(b"").unwrap().is_empty());
}
