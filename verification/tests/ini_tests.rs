use rpkg_rs::encryption::xtea::Xtea;
use rpkg_rs::misc::hash_path_list::PathList;
use rpkg_rs::misc::ini_file_system::{IniFile, IniFileError, IniFileSection, IniFileSystem};
use rpkg_rs::resource::pdefs::{GameDiscoveryError, GamePaths};

const THUMBS: &str = "# System config file for the engine\n\
!include extra.ini\n\
!other thing\n\
[application]\n\
ForceVSync=0\n\
PROJECT_PATH=../Game\n\
runtime_path=Runtime\n\
ForceVSync=1\n\
ConsoleCmd UI_EnableMouseEvents 0\n\
[Hitman5]\n\
usegamecontroller=1\n\
stray line\n";

#[test]
fn ini_file_is_read_line_by_line() {
    let (file, pending) = IniFileSystem::load_from_string("thumbs.dat", THUMBS).unwrap();
    assert_eq!(pending, vec!["extra.ini".to_string()]);
    assert_eq!(file.name(), "thumbs.dat");
    assert_eq!(file.description, Some("System config file for the engine".to_string()));
    assert!(file.includes().is_empty());
    assert_eq!(file.sections().len(), 2);
    assert_eq!(file.sections()[0].name(), "application");
    assert_eq!(
        file.sections()[0].options(),
        &vec![
            ("FORCEVSYNC".to_string(), "1".to_string()),
            ("PROJECT_PATH".to_string(), "../Game".to_string()),
            ("RUNTIME_PATH".to_string(), "Runtime".to_string()),
        ]
    );
    assert!(file.sections()[0].has_option("FORCEVSYNC"));
    assert!(!file.sections()[0].has_option("ForceVSync"));
    assert_eq!(file.console_cmds(), &vec!["UI_EnableMouseEvents 0".to_string()]);
    assert_eq!(file.get_option("application", "forcevsync").unwrap(), "1");
    assert_eq!(file.get_option("Hitman5", "UseGameController").unwrap(), "1");
    match file.get_option("application", "nothing") {
        Err(IniFileError::OptionNotFound(name)) => assert_eq!(name, "nothing"),
        other => panic!("{:?}", other),
    }
    match file.get_option("nowhere", "nothing") {
        Err(IniFileError::SectionNotFound(name)) => assert_eq!(name, "nowhere"),
        other => panic!("{:?}", other),
    }
    assert!(matches!(
        IniFileSystem::load_from_string("x", "[open\n"),
        Err(IniFileError::ParsingError(_))
    ));
    // Options before any section go nowhere.
    let (file, _) = IniFileSystem::load_from_string("x", "a=b\n").unwrap();
    assert!(file.sections().is_empty());
}

#[test]
fn ini_file_set_value_and_write() {
    let (mut file, _) = IniFileSystem::load_from_string("thumbs.dat", THUMBS).unwrap();
    file.set_value("application", "FORCEVSYNC", "2").unwrap();
    assert_eq!(file.get_option("application", "ForceVSync").unwrap(), "2");
    assert!(matches!(
        file.set_value("application", "forcevsync", "3"),
        Err(IniFileError::OptionNotFound(_))
    ));
    assert!(matches!(
        file.set_value("nowhere", "FORCEVSYNC", "3"),
        Err(IniFileError::SectionNotFound(_))
    ));
    file.push_console_command("quit".to_string());
    file.add_include(IniFile::new("extra.ini"));
    assert!(file.find_include("extra.ini").is_some());
    assert!(file.find_include("other.ini").is_none());

    let mut text: Vec<char> = Vec::new();
    file.write_ini_file(&mut text);
    let text: String = text.into_iter().collect();
    assert_eq!(
        text,
        "# System config file for the engine\n\
\n# -----------------------------------------------------------------------------\n\n\
!include extra.ini\n\
[application]\nFORCEVSYNC=2\nPROJECT_PATH=../Game\nRUNTIME_PATH=Runtime\n\n\
[Hitman5]\nUSEGAMECONTROLLER=1\n\n\
ConsoleCmd UI_EnableMouseEvents 0\nConsoleCmd quit\n"
    );

    let mut section = IniFileSection::new("b".to_string());
    section.set_option("K", "1");
    section.set_option("L", "2");
    section.set_option("K", "3");
    let mut text: Vec<char> = Vec::new();
    section.write_section(&mut text);
    assert_eq!(text.into_iter().collect::<String>(), "[b]\nK=3\nL=2\n\n");
}

#[test]
fn ini_sections_are_written_in_the_order_of_their_names() {
    let (file, _) =
        IniFileSystem::load_from_string("x", "[beta]\n[Alpha]\n[gamma]\n[alpha]\n").unwrap();
    let mut text: Vec<char> = Vec::new();
    file.write_ini_file(&mut text);
    assert_eq!(
        text.into_iter().collect::<String>(),
        "[Alpha]\n\n[alpha]\n\n[beta]\n\n[gamma]\n\n"
    );
}

fn tree() -> IniFileSystem {
    let (mut system, pending) = IniFileSystem::from(
        "thumbs.dat",
        b"[application]\nA=root\nB=root\nConsoleCmd one\n!include first.ini\n!include second.ini\n",
    )
    .unwrap();
    assert_eq!(pending, vec!["first.ini".to_string(), "second.ini".to_string()]);
    let (mut first, pending) = IniFileSystem::load_file(
        "first.ini",
        b"[application]\nB=first\nC=first\nConsoleCmd two\nConsoleCmd one\n!include deep.ini\n",
    )
    .unwrap();
    assert_eq!(pending, vec!["deep.ini".to_string()]);
    let (deep, _) = IniFileSystem::load_file(
        "deep.ini",
        b"[application]\nC=deep\nD=deep\n[extra]\nE=deep\nConsoleCmd four\n",
    )
    .unwrap();
    let (second, _) = IniFileSystem::load_file(
        "second.ini",
        b"[application]\nC=second\nConsoleCmd three\n",
    )
    .unwrap();
    first.add_include(deep);
    system.root.add_include(first);
    system.root.add_include(second);
    system
}

#[test]
fn ini_file_system_looks_into_included_files() {
    let system = tree();
    assert_eq!(system.root().name(), "thumbs.dat");
    // Each file before what it includes.
    assert_eq!(system.console_cmds(), vec!["one", "two", "one", "four", "three"]);
    // Level by level: root, first, second, deep. The last one decides.
    assert_eq!(system.option("application", "A").unwrap(), "root");
    assert_eq!(system.option("application", "B").unwrap(), "first");
    assert_eq!(system.option("application", "C").unwrap(), "deep");
    assert_eq!(system.option("application", "d").unwrap(), "deep");
    assert_eq!(system.option("extra", "E").unwrap(), "deep");
    match system.option("application", "Z") {
        Err(IniFileError::OptionNotFound(name)) => assert_eq!(name, "Z"),
        other => panic!("{:?}", other),
    }
}

#[test]
fn ini_file_system_normalize_merges_level_by_level() {
    let mut system = tree();
    system.normalize();
    let root = system.root();
    assert!(root.includes().is_empty());
    assert_eq!(root.sections().len(), 2);
    assert_eq!(
        root.sections()[0].options(),
        &vec![
            ("A".to_string(), "root".to_string()),
            ("B".to_string(), "first".to_string()),
            ("C".to_string(), "deep".to_string()),
            ("D".to_string(), "deep".to_string()),
        ]
    );
    assert_eq!(root.sections()[1].name(), "extra");
    assert_eq!(root.console_cmds(), &vec!["one", "two", "three", "four"]);
}

#[test]
fn ini_file_system_reads_encrypted_files() {
    let encrypted = Xtea::encrypt_text_file("[application]\nA=1\n".to_string()).unwrap();
    let mut system = IniFileSystem::new();
    assert!(system.load("thumbs.dat", &encrypted).unwrap().is_empty());
    assert_eq!(system.option("application", "a").unwrap(), "1");
    let mut broken = encrypted.clone();
    broken[17] ^= 1;
    assert!(matches!(
        system.load("thumbs.dat", &broken),
        Err(IniFileError::DecryptionError(_))
    ));
    // The root is kept where loading fails.
    assert_eq!(system.option("application", "a").unwrap(), "1");
    // Bytes that are no text are an empty file.
    let (file, pending) = IniFileSystem::load_file("x", &[0xff, 0xfe]).unwrap();
    assert!(file.sections().is_empty() && pending.is_empty());
}

#[test]
fn game_paths_need_both_paths() {
    let (system, _) = IniFileSystem::from(
        "thumbs.dat",
        b"[application]\nPROJECT_PATH=Game\nRUNTIME_PATH=Runtime\n",
    )
    .unwrap();
    let paths = GamePaths::from_retail_directory("retail", &system).unwrap();
    assert!(paths.project_path.starts_with("retail"));
    assert!(paths.project_path.ends_with("Game"));
    assert!(paths.runtime_path.ends_with("Runtime"));
    assert!(paths.package_definition_path.ends_with("packagedefinition.txt"));

    let (system, _) =
        IniFileSystem::from("thumbs.dat", b"[application]\nPROJECT_PATH=Game\n").unwrap();
    assert!(matches!(
        GamePaths::from_retail_directory("retail", &system),
        Err(GameDiscoveryError::NoRuntimePath)
    ));
    let (system, _) =
        IniFileSystem::from("thumbs.dat", b"[application]\nRUNTIME_PATH=Runtime\n").unwrap();
    assert!(matches!(
        GamePaths::from_retail_directory("retail", &system),
        Err(GameDiscoveryError::NoProjectPath)
    ));
    let (system, _) = IniFileSystem::from("thumbs.dat", b"[other]\n").unwrap();
    assert!(matches!(
        GamePaths::from_retail_directory("retail", &system),
        Err(GameDiscoveryError::NoProjectPath)
    ));
}

#[test]
fn path_list_maps_hashes_to_paths() {
    let mut list = PathList::new();
    list.parse_into(
        "#comments will be ignored!\n\
00546F0BD4E80484.GFXI,[assembly:/any/path/here/file.jpg].pc_gfx\n\
0023456789ABCDEF.WWEM, this_will_fail\n\
003456789ABCDEF0.FXAS,[assembly:/lorem/ipsum.animset].pc_animset\n\
0000000000000001\n\
0000000000000002.GFXI\n\
not hex.X,[assembly:/a.b].c\n\
FFFFFFFFFFFFFFFF.X,[assembly:/a.b].c\n",
    );
    assert_eq!(list.entries.len(), 5);
    assert_eq!(
        list.get_resource_id(0x00546F0BD4E80484).unwrap().uri,
        "[assembly:/any/path/here/file.jpg].gfx"
    );
    assert!(list.get_resource_id(0x0023456789ABCDEF).is_none());
    assert!(list.entries.contains_key(&0x0023456789ABCDEF));
    assert_eq!(
        list.get_resource_id(0x003456789ABCDEF0).unwrap().resource_path(),
        "[assembly:/lorem/ipsum.animset].pc_animset"
    );
    assert!(list.entries.contains_key(&1));
    // Without a `,` the whole line is the number, so this line is dropped.
    assert!(!list.entries.contains_key(&2));
    // An identifier out of range goes under the sentinel.
    assert_eq!(list.get_resource_id(0x00FF_FFFF_FFFF_FFFF).unwrap().uri, "[assembly:/a.b].c");
    assert!(list.get_resource_id(42).is_none());
}

#[test]
fn normalize_keeps_every_lookup() {
    let system = tree();
    let mut normalized = tree();
    normalized.normalize();
    assert!(normalized.root().includes().is_empty());
    for section in ["application", "Application", "other", "missing"] {
        for option in ["A", "B", "C", "D", "a", "none"] {
            let before = system.option(section, option).ok();
            let after = normalized.root().get_option(section, option).ok();
            assert_eq!(before, after, "{} {}", section, option);
        }
    }
    // Normalizing again changes nothing.
    let sections: Vec<(String, Vec<(String, String)>)> = normalized
        .root()
        .sections()
        .iter()
        .map(|s| (s.name(), s.options().clone()))
        .collect();
    let commands = normalized.root().console_cmds().clone();
    normalized.normalize();
    let again: Vec<(String, Vec<(String, String)>)> = normalized
        .root()
        .sections()
        .iter()
        .map(|s| (s.name(), s.options().clone()))
        .collect();
    assert_eq!(again, sections);
    assert_eq!(normalized.root().console_cmds(), &commands);
}

#[test]
fn texts_are_hashed_byte_by_byte() {
    let file = IniFile::new("thumbs.dat");
    assert_eq!(file.generate_hash(""), 0xe10f732f);
    let mut hash: u32 = 0xe10f732f;
    for byte in "ForceVSync".bytes() {
        hash = hash.rotate_left(13) ^ byte as u32;
    }
    assert_eq!(file.generate_hash("ForceVSync"), hash);
    assert_eq!(file.generate_hash("a"), 0xe10f732fu32.rotate_left(13) ^ 0x61);
    assert_ne!(file.generate_hash("ab"), file.generate_hash("ba"));
}

#[test]
fn path_list_gives_paths_as_text() {
    let mut list = PathList::new();
    list.parse_into("0000000000000007.X,[assembly:/a.b].pc_c\n0000000000000008.X,nothing\n");
    assert_eq!(list.get_path(7), Some(&"[assembly:/a.b].c".to_string()));
    assert_eq!(list.get_path(8), None);
    assert_eq!(list.get_path(9), None);
}
