//! The system configuration files of the engine.
//!
//! ```txt
//! [application]
//! ForceVSync=0
//! CapWorkerThreads=1
//! SCENE_FILE=assembly:/path/to/scene.entity
//!
//! [Hitman5]
//! usegamecontroller=1
//! ConsoleCmd UI_EnableMouseEvents 0
//! ```
//!
//! A file may include others with `!include name`. This module reads one
//! file at a time and names the files it includes; reading those from disk
//! is left to the caller, who hangs them into the tree with `add_include`.

use crate::encryption::xtea::{decrypted_file, has_header, Decrypted, Xtea, XteaError};
use crate::misc::ini_laws::{distinct_keys, sections_ok};
use crate::text::{
    chars_of,
    find_char,
    first_index_of,
    is_text,
    lex_le,
    lines_of,
    lower_text,
    matches_at,
    occurs_at,
    push_all,
    push_str,
    rows,
    same_chars,
    slice_of,
    split_lines,
    starts_with,
    string_of,
    text_from_utf8,
    text_le,
    to_lower,
    to_upper,
    trim_start,
    trimmed_start,
    upper_text,
};
use vstd::prelude::*;
use vstd::utf8::{decode_utf8, valid_utf8};

verus! {

#[derive(Debug)]
pub enum IniFileError {
    /// The section has no such option.
    OptionNotFound(String),
    /// There is no such section.
    SectionNotFound(String),
    /// An error occurred when parsing.
    ParsingError(String),
    /// A file could not be read.
    IoError(String),
    /// The file is encrypted and could not be decrypted.
    DecryptionError(XteaError),
    /// The given input was incorrect.
    InvalidInput(String),
}

/// A section of a configuration file: its options, each name once, in the
/// order in which they were first set.
#[derive(Debug)]
pub struct IniFileSection {
    pub name: String,
    pub options: Vec<(String, String)>,
}

/// Represents a system config file for the Glacier engine.
#[derive(Debug)]
pub struct IniFile {
    pub name: String,
    pub description: Option<String>,
    pub includes: Vec<IniFile>,
    /// The sections, each name once, in the order in which they were opened.
    pub sections: Vec<IniFileSection>,
    pub console_cmds: Vec<String>,
}

/// A hierarchical file system of [IniFile].
#[derive(Debug)]
pub struct IniFileSystem {
    pub root: IniFile,
}

/// The names and values of a sequence of options.
pub open spec fn pairs(options: Seq<(String, String)>) -> Seq<(Seq<char>, Seq<char>)> {
    Seq::new(options.len(), |i: int| (options[i].0@, options[i].1@))
}

/// The place among the first `count` options of the first named `key`, or
/// `count` where none is.
pub open spec fn option_at(options: Seq<(Seq<char>, Seq<char>)>, key: Seq<char>, count: int) -> int
    decreases count,
{
    if count <= 0 {
        0
    } else {
        let before = option_at(options, key, count - 1);
        if before < count - 1 {
            before
        } else if options[count - 1].0 == key {
            count - 1
        } else {
            count
        }
    }
}

proof fn lemma_option_at_stays(
    options: Seq<(Seq<char>, Seq<char>)>,
    key: Seq<char>,
    from: int,
    count: int,
)
    requires
        1 <= from <= count,
        option_at(options, key, from) == from - 1,
    ensures
        option_at(options, key, count) == from - 1,
    decreases count - from,
{
    if from < count {
        lemma_option_at_stays(options, key, from, count - 1);
    }
}

/// The value of the option `key`, if there is one.
pub open spec fn option_value(options: Seq<(Seq<char>, Seq<char>)>, key: Seq<char>) -> Option<
    Seq<char>,
> {
    let at = option_at(options, key, options.len() as int);
    if at < options.len() {
        Some(options[at].1)
    } else {
        None
    }
}

/// `options` with `key` set to `value`: in place where there is such an
/// option, else at the end.
pub open spec fn with_option(options: Seq<(Seq<char>, Seq<char>)>, key: Seq<char>, value: Seq<char>) -> Seq<
    (Seq<char>, Seq<char>),
> {
    let at = option_at(options, key, options.len() as int);
    if at < options.len() {
        options.update(at, (key, value))
    } else {
        options.push((key, value))
    }
}

/// The lines that write the first `count` options, `name=value` each.
pub open spec fn option_lines(options: Seq<(Seq<char>, Seq<char>)>, count: int) -> Seq<char>
    decreases count,
{
    if count <= 0 {
        Seq::empty()
    } else {
        option_lines(options, count - 1) + options[count - 1].0 + "="@ + options[count - 1].1
            + "\n"@
    }
}

impl IniFileSection {
    /// A section without options.
    pub fn new(name: String) -> (r: Self)
        ensures
            r.name == name,
            r.options@.len() == 0,
            r.wf(),
    {
        Self { name, options: Vec::new() }
    }

    pub fn name(&self) -> (r: String)
        ensures
            r@ == self.name@,
    {
        self.name.clone()
    }

    /// The options, in the order in which they were first set.
    pub fn options(&self) -> (r: &Vec<(String, String)>)
        ensures
            r == &self.options,
    {
        &self.options
    }

    fn find_option(&self, option_name: &str) -> (r: Option<usize>)
        ensures
            match r {
                Some(i) => i < self.options@.len() && i == option_at(
                    pairs(self.options@),
                    option_name@,
                    self.options@.len() as int,
                ),
                None => option_at(pairs(self.options@), option_name@, self.options@.len() as int)
                    >= self.options@.len(),
            },
    {
        let wanted = chars_of(option_name);
        let mut i: usize = 0;
        while i < self.options.len()
            invariant
                i <= self.options@.len(),
                wanted@ == option_name@,
                option_at(pairs(self.options@), option_name@, i as int) == i,
            decreases self.options@.len() - i,
        {
            if same_chars(&chars_of(self.options[i].0.as_str()), &wanted) {
                proof {
                    lemma_option_at_stays(
                        pairs(self.options@),
                        option_name@,
                        i + 1,
                        self.options@.len() as int,
                    );
                }
                return Some(i);
            }
            i += 1;
        }
        None
    }

    pub fn has_option(&self, option_name: &str) -> (r: bool)
        ensures
            r == option_value(pairs(self.options@), option_name@) is Some,
    {
        self.find_option(option_name).is_some()
    }

    /// The value of an option, if the section has it.
    pub fn get(&self, option_name: &str) -> (r: Option<&String>)
        ensures
            match option_value(pairs(self.options@), option_name@) {
                Some(value) => r matches Some(found) && found@ == value,
                None => r is None,
            },
    {
        match self.find_option(option_name) {
            Some(i) => Some(&self.options[i].1),
            None => None,
        }
    }

    /// Sets an option, which is added where the section lacks it.
    pub fn set_option(&mut self, option_name: &str, value: &str)
        ensures
            final(self).name == old(self).name,
            pairs(final(self).options@) == with_option(
                pairs(old(self).options@),
                option_name@,
                value@,
            ),
            old(self).wf() ==> final(self).wf(),
    {
        let ghost before = pairs(self.options@);
        proof {
            crate::misc::ini_laws::lemma_with_option(before, option_name@, value@, option_name@);
        }
        match self.find_option(option_name) {
            Some(i) => {
                self.options.set(i, (option_name.to_string(), value.to_string()));
                assert(pairs(self.options@) =~= before.update(
                    i as int,
                    (option_name@, value@),
                ));
            },
            None => {
                self.options.push((option_name.to_string(), value.to_string()));
                assert(pairs(self.options@) =~= before.push((option_name@, value@)));
            },
        }
    }

    /// The text of the section: its name in brackets, its options, and an empty line.
    pub open spec fn text(&self) -> Seq<char> {
        "["@ + self.name@ + "]\n"@ + option_lines(
            pairs(self.options@),
            self.options@.len() as int,
        ) + "\n"@
    }

    /// Writes the section: its name in brackets, a line for each option,
    /// and an empty line.
    pub fn write_section(&self, writer: &mut Vec<char>)
        ensures
            final(writer)@ == old(writer)@ + self.text(),
    {
        let mut out: Vec<char> = Vec::new();
        push_str(&mut out, "[");
        push_str(&mut out, self.name.as_str());
        push_str(&mut out, "]\n");
        let ghost lead = out@;
        let mut i: usize = 0;
        assert(lead + option_lines(pairs(self.options@), 0) =~= lead);
        while i < self.options.len()
            invariant
                i <= self.options@.len(),
                out@ == lead + option_lines(pairs(self.options@), i as int),
            decreases self.options@.len() - i,
        {
            let ghost before = out@;
            push_str(&mut out, self.options[i].0.as_str());
            push_str(&mut out, "=");
            push_str(&mut out, self.options[i].1.as_str());
            push_str(&mut out, "\n");
            assert(out@ =~= lead + option_lines(pairs(self.options@), i + 1));
            i += 1;
        }
        push_str(&mut out, "\n");
        assert(out@ =~= self.text());
        push_all(writer, &out);
    }
}


/// The place among the first `count` sections of the first named `name`,
/// or `count` where none is.
pub open spec fn section_at(sections: Seq<IniFileSection>, name: Seq<char>, count: int) -> int
    decreases count,
{
    if count <= 0 {
        0
    } else {
        let before = section_at(sections, name, count - 1);
        if before < count - 1 {
            before
        } else if sections[count - 1].name@ == name {
            count - 1
        } else {
            count
        }
    }
}

proof fn lemma_section_at_stays(sections: Seq<IniFileSection>, name: Seq<char>, from: int, count: int)
    requires
        1 <= from <= count,
        section_at(sections, name, from) == from - 1,
    ensures
        section_at(sections, name, count) == from - 1,
    decreases count - from,
{
    if from < count {
        lemma_section_at_stays(sections, name, from, count - 1);
    }
}

/// The place among the first `count` files of the first named `name`, or
/// `count` where none is.
pub open spec fn include_at(includes: Seq<IniFile>, name: Seq<char>, count: int) -> int
    decreases count,
{
    if count <= 0 {
        0
    } else {
        let before = include_at(includes, name, count - 1);
        if before < count - 1 {
            before
        } else if includes[count - 1].name@ == name {
            count - 1
        } else {
            count
        }
    }
}

proof fn lemma_include_at_stays(includes: Seq<IniFile>, name: Seq<char>, from: int, count: int)
    requires
        1 <= from <= count,
        include_at(includes, name, from) == from - 1,
    ensures
        include_at(includes, name, count) == from - 1,
    decreases count - from,
{
    if from < count {
        lemma_include_at_stays(includes, name, from, count - 1);
    }
}

/// The texts of a sequence of strings.
pub open spec fn strings(v: Seq<String>) -> Seq<Seq<char>> {
    Seq::new(v.len(), |i: int| v[i]@)
}

/// What looking up an option in a file gives.
pub enum Lookup {
    Value(Seq<char>),
    NoSection,
    NoOption,
}

/// The value of the option `option_name`, looked up in upper case, in the
/// section `section_name` of `sections`.
pub open spec fn looked_up(
    sections: Seq<IniFileSection>,
    section_name: Seq<char>,
    option_name: Seq<char>,
) -> Lookup {
    let at = section_at(sections, section_name, sections.len() as int);
    if at >= sections.len() {
        Lookup::NoSection
    } else {
        match option_value(pairs(sections[at].options@), upper_text(option_name)) {
            Some(value) => Lookup::Value(value),
            None => Lookup::NoOption,
        }
    }
}

/// The lines `!include name` for the first `count` files.
pub open spec fn include_lines(includes: Seq<IniFile>, count: int) -> Seq<char>
    decreases count,
{
    if count <= 0 {
        Seq::empty()
    } else {
        include_lines(includes, count - 1) + "!include "@ + includes[count - 1].name@ + "\n"@
    }
}

/// The lines `ConsoleCmd command` for the first `count` commands.
pub open spec fn command_lines(commands: Seq<String>, count: int) -> Seq<char>
    decreases count,
{
    if count <= 0 {
        Seq::empty()
    } else {
        command_lines(commands, count - 1) + "ConsoleCmd "@ + commands[count - 1]@ + "\n"@
    }
}

/// The places of the first `count` sections, ordered by their names in
/// lower case; of two sections with the same name in lower case the one
/// that was opened first comes first.
pub open spec fn section_order(sections: Seq<IniFileSection>, count: int) -> Seq<int>
    decreases count,
{
    if count <= 0 {
        Seq::empty()
    } else {
        let before = section_order(sections, count - 1);
        before.insert(
            insert_place(sections, before, count - 1, before.len() as int),
            count - 1,
        )
    }
}

/// Where the section at `place` goes among the first `upto` of `order`:
/// behind the last whose name in lower case is not above its own.
pub open spec fn insert_place(sections: Seq<IniFileSection>, order: Seq<int>, place: int, upto: int) -> int
    decreases upto,
{
    if upto <= 0 {
        0
    } else if lex_le(
        lower_text(sections[order[upto - 1]].name@),
        lower_text(sections[place].name@),
    ) {
        upto
    } else {
        insert_place(sections, order, place, upto - 1)
    }
}

/// The texts of the sections at the first `count` places of `order`.
pub open spec fn section_texts(sections: Seq<IniFileSection>, order: Seq<int>, count: int) -> Seq<
    char,
>
    decreases count,
{
    if count <= 0 {
        Seq::empty()
    } else {
        section_texts(sections, order, count - 1) + sections[order[count - 1]].text()
    }
}

impl Default for IniFile {
    /// An empty `thumbs.dat` with the description of the engine's own.
    fn default() -> (r: Self)
        ensures
            r.name@ == "thumbs.dat"@,
            r.description matches Some(d) && d@ == "System config file for the engine"@,
            r.includes@.len() == 0,
            r.sections@.len() == 0,
            r.console_cmds@.len() == 0,
            r.wf(),
    {
        Self {
            name: "thumbs.dat".to_string(),
            description: Some("System config file for the engine".to_string()),
            includes: Vec::new(),
            sections: Vec::new(),
            console_cmds: Vec::new(),
        }
    }
}

/// A hash turned thirteen bits to the left.
pub open spec fn turned(hash: u32) -> u32 {
    (hash << 13) | (hash >> 19)
}

/// The hash of the first `count` bytes: from a fixed start, for each byte
/// the hash is turned thirteen bits to the left and the byte is XORed in.
pub open spec fn hash_upto(bytes: Seq<u8>, count: int) -> u32
    decreases count,
{
    if count <= 0 {
        0xe10f732fu32
    } else {
        turned(hash_upto(bytes, count - 1)) ^ (bytes[count - 1] as u32)
    }
}

/// The hash of a text: `hash_upto` of all its UTF-8 bytes, or the fixed
/// start where the low thirty bits of their number are zero.
pub open spec fn hash_of(text: Seq<char>) -> u32 {
    let bytes = vstd::utf8::encode_utf8(text);
    if bytes.len() % 0x4000_0000 == 0 {
        0xe10f732fu32
    } else {
        hash_upto(bytes, bytes.len() as int)
    }
}

impl IniFile {
    /// The hash under which the engine knows the text `s`.
    pub fn generate_hash(&self, s: &str) -> (r: u32)
        ensures
            r == hash_of(s@),
    {
        let bytes = s.as_bytes();
        let mut hash_value: u32 = 0xe10f732f;
        if bytes.len() % 0x4000_0000 != 0 {
            let mut i: usize = 0;
            while i < bytes.len()
                invariant
                    i <= bytes@.len(),
                    hash_value == hash_upto(bytes@, i as int),
                decreases bytes@.len() - i,
            {
                hash_value = ((hash_value << 13) | (hash_value >> 19)) ^ (bytes[i] as u32);
                i += 1;
            }
        }
        hash_value
    }

    /// A file without a description, includes, sections or commands.
    pub fn new(name: &str) -> (r: Self)
        ensures
            r.name@ == name@,
            r.description is None,
            r.includes@.len() == 0,
            r.sections@.len() == 0,
            r.console_cmds@.len() == 0,
            r.wf(),
    {
        Self {
            name: name.to_string(),
            description: None,
            includes: Vec::new(),
            sections: Vec::new(),
            console_cmds: Vec::new(),
        }
    }

    pub fn name(&self) -> (r: String)
        ensures
            r@ == self.name@,
    {
        self.name.clone()
    }

    /// The sections, in the order in which they were opened.
    pub fn sections(&self) -> (r: &Vec<IniFileSection>)
        ensures
            r == &self.sections,
    {
        &self.sections
    }

    pub fn includes(&self) -> (r: &Vec<IniFile>)
        ensures
            r == &self.includes,
    {
        &self.includes
    }

    /// Hangs a file that this file includes into the tree, behind the others.
    pub fn add_include(&mut self, file: IniFile)
        ensures
            final(self).includes@ == old(self).includes@.push(file),
            final(self).name == old(self).name,
            final(self).description == old(self).description,
            final(self).sections == old(self).sections,
            final(self).console_cmds == old(self).console_cmds,
    {
        self.includes.push(file);
    }

    /// The first included file of the given name.
    pub fn find_include(&self, include_name: &str) -> (r: Option<&IniFile>)
        ensures
            ({
                let at = include_at(self.includes@, include_name@, self.includes@.len() as int);
                if at < self.includes@.len() {
                    0 <= at && r == Some(&self.includes@[at])
                } else {
                    r is None
                }
            }),
    {
        let wanted = chars_of(include_name);
        let mut i: usize = 0;
        while i < self.includes.len()
            invariant
                i <= self.includes@.len(),
                wanted@ == include_name@,
                include_at(self.includes@, include_name@, i as int) == i,
            decreases self.includes@.len() - i,
        {
            if same_chars(&chars_of(self.includes[i].name.as_str()), &wanted) {
                proof {
                    lemma_include_at_stays(
                        self.includes@,
                        include_name@,
                        i + 1,
                        self.includes@.len() as int,
                    );
                }
                return Some(&self.includes[i]);
            }
            i += 1;
        }
        None
    }

    /// Finds the first section of the given name.
    pub fn find_section(&self, section_name: &str) -> (r: Option<usize>)
        ensures
            match r {
                Some(i) => i < self.sections@.len() && i == section_at(
                    self.sections@,
                    section_name@,
                    self.sections@.len() as int,
                ),
                None => section_at(self.sections@, section_name@, self.sections@.len() as int)
                    >= self.sections@.len(),
            },
    {
        let wanted = chars_of(section_name);
        let mut i: usize = 0;
        while i < self.sections.len()
            invariant
                i <= self.sections@.len(),
                wanted@ == section_name@,
                section_at(self.sections@, section_name@, i as int) == i,
            decreases self.sections@.len() - i,
        {
            if same_chars(&chars_of(self.sections[i].name.as_str()), &wanted) {
                proof {
                    lemma_section_at_stays(
                        self.sections@,
                        section_name@,
                        i + 1,
                        self.sections@.len() as int,
                    );
                }
                return Some(i);
            }
            i += 1;
        }
        None
    }

    /// The value of an option of a section. The name of the option is
    /// looked up in upper case, as options are stored.
    pub fn get_option(&self, section_name: &str, option_name: &str) -> (r: Result<
        String,
        IniFileError,
    >)
        ensures
            match looked_up(self.sections@, section_name@, option_name@) {
                Lookup::Value(value) => r matches Ok(found) && found@ == value,
                Lookup::NoSection => r matches Err(IniFileError::SectionNotFound(name)) && name@
                    == section_name@,
                Lookup::NoOption => r matches Err(IniFileError::OptionNotFound(name)) && name@
                    == option_name@,
            },
    {
        match self.find_section(section_name) {
            Some(i) => match self.sections[i].get(to_upper(option_name).as_str()) {
                Some(o) => Ok(o.clone()),
                None => Err(IniFileError::OptionNotFound(option_name.to_string())),
            },
            None => Err(IniFileError::SectionNotFound(section_name.to_string())),
        }
    }

    /// Sets the value of an option that the section has; the name is taken as it is.
    pub fn set_value(&mut self, section_name: &str, option_name: &str, value: &str) -> (r: Result<
        (),
        IniFileError,
    >)
        ensures
            final(self).name == old(self).name,
            final(self).description == old(self).description,
            final(self).includes == old(self).includes,
            final(self).console_cmds == old(self).console_cmds,
            final(self).sections@.len() == old(self).sections@.len(),
            ({
                let at = section_at(
                    old(self).sections@,
                    section_name@,
                    old(self).sections@.len() as int,
                );
                if at >= old(self).sections@.len() {
                    &&& r matches Err(IniFileError::SectionNotFound(name)) && name@
                        == section_name@
                    &&& final(self).sections == old(self).sections
                } else if option_value(pairs(old(self).sections@[at].options@), option_name@)
                    is None {
                    &&& r matches Err(IniFileError::OptionNotFound(name)) && name@ == option_name@
                    &&& final(self).sections == old(self).sections
                } else {
                    &&& r is Ok
                    &&& 0 <= at
                    &&& final(self).sections@[at].name == old(self).sections@[at].name
                    &&& pairs(final(self).sections@[at].options@) == with_option(
                        pairs(old(self).sections@[at].options@),
                        option_name@,
                        value@,
                    )
                    &&& forall|k: int|
                        0 <= k < old(self).sections@.len() && k != at ==> final(self).sections@[k]
                            == old(self).sections@[k]
                }
            }),
            old(self).wf() ==> final(self).wf(),
    {
        let ghost was = sections_view(self.sections@);
        match self.find_section(section_name) {
            Some(i) => {
                if self.sections[i].has_option(option_name) {
                    let mut section = self.sections.remove(i);
                    section.set_option(option_name, value);
                    self.sections.insert(i, section);
                    proof {
                        if old(self).wf() {
                            crate::misc::ini_laws::lemma_section_set(
                                was,
                                i as int,
                                option_name@,
                                value@,
                            );
                            assert(sections_view(self.sections@) =~= was.update(
                                i as int,
                                SectionView {
                                    name: was[i as int].name,
                                    options: with_option(was[i as int].options, option_name@, value@),
                                },
                            ));
                        }
                    }
                    Ok(())
                } else {
                    Err(IniFileError::OptionNotFound(option_name.to_string()))
                }
            },
            None => Err(IniFileError::SectionNotFound(section_name.to_string())),
        }
    }

    pub fn push_console_command(&mut self, command: String)
        ensures
            final(self).console_cmds@ == old(self).console_cmds@.push(command),
            final(self).name == old(self).name,
            final(self).description == old(self).description,
            final(self).includes == old(self).includes,
            final(self).sections == old(self).sections,
    {
        self.console_cmds.push(command);
    }

    pub fn console_cmds(&self) -> (r: &Vec<String>)
        ensures
            r == &self.console_cmds,
    {
        &self.console_cmds
    }

    /// The text of the file: the description as a comment above a rule, a
    /// line for each include, the sections ordered by their names in lower
    /// case, and a line for each console command.
    pub open spec fn text(&self) -> Seq<char> {
        (match self.description {
            Some(d) => "# "@ + d@ + "\n"@
                + "\n# -----------------------------------------------------------------------------\n\n"@,
            None => Seq::empty(),
        }) + include_lines(self.includes@, self.includes@.len() as int) + section_texts(
            self.sections@,
            section_order(self.sections@, self.sections@.len() as int),
            self.sections@.len() as int,
        ) + command_lines(self.console_cmds@, self.console_cmds@.len() as int)
    }

    /// The places of the sections, ordered by their names in lower case.
    fn ordered_sections(&self) -> (order: Vec<usize>)
        ensures
            order@.len() == self.sections@.len(),
            order@.map_values(|i: usize| i as int) == section_order(
                self.sections@,
                self.sections@.len() as int,
            ),
            forall|k: int| 0 <= k < order@.len() ==> (#[trigger] order@[k]) < self.sections@.len(),
    {
        let mut order: Vec<usize> = Vec::new();
        let mut keys: Vec<Vec<char>> = Vec::new();
        let mut i: usize = 0;
        assert(order@.map_values(|i: usize| i as int) =~= section_order(self.sections@, 0));
        while i < self.sections.len()
            invariant
                i <= self.sections@.len(),
                order@.len() == i,
                keys@.len() == i,
                order@.map_values(|i: usize| i as int) == section_order(self.sections@, i as int),
                forall|k: int| 0 <= k < i ==> (#[trigger] order@[k]) < i,
                forall|k: int|
                    0 <= k < i ==> (#[trigger] keys@[k])@ == lower_text(
                        self.sections@[order@[k] as int].name@,
                    ),
            decreases self.sections@.len() - i,
        {
            let key = chars_of(to_lower(self.sections[i].name.as_str()).as_str());
            let ghost spec_order = section_order(self.sections@, i as int);
            let mut at: usize = order.len();
            while at > 0 && !text_le(&keys[at - 1], &key)
                invariant
                    at <= order@.len(),
                    order@.len() == i,
                    keys@.len() == i,
                    i < self.sections@.len(),
                    key@ == lower_text(self.sections@[i as int].name@),
                    spec_order == order@.map_values(|i: usize| i as int),
                    forall|k: int|
                        0 <= k < i ==> (#[trigger] keys@[k])@ == lower_text(
                            self.sections@[order@[k] as int].name@,
                        ),
                    insert_place(self.sections@, spec_order, i as int, i as int) == insert_place(
                        self.sections@,
                        spec_order,
                        i as int,
                        at as int,
                    ),
                decreases at,
            {
                assert(spec_order[at - 1] == order@[at - 1] as int);
                at -= 1;
            }
            proof {
                if at > 0 {
                    assert(spec_order[at - 1] == order@[at - 1] as int);
                }
            }
            let ghost before_order = order@;
            let ghost before_keys = keys@;
            order.insert(at, i);
            keys.insert(at, key);
            proof {
                assert(order@.map_values(|i: usize| i as int) =~= spec_order.insert(
                    at as int,
                    i as int,
                ));
                assert forall|k: int| 0 <= k < i + 1 implies (#[trigger] keys@[k])@ == lower_text(
                    self.sections@[order@[k] as int].name@,
                ) by {
                    if k < at {
                        assert(keys@[k] == before_keys[k]);
                        assert(order@[k] == before_order[k]);
                    } else if k > at {
                        assert(keys@[k] == before_keys[k - 1]);
                        assert(order@[k] == before_order[k - 1]);
                    }
                }
                assert forall|k: int| 0 <= k < i + 1 implies (#[trigger] order@[k]) < i + 1 by {
                    if k < at {
                        assert(order@[k] == before_order[k]);
                    } else if k > at {
                        assert(order@[k] == before_order[k - 1]);
                    }
                }
            }
            i += 1;
        }
        order
    }

    /// Writes the file as text.
    pub fn write_ini_file(&self, writer: &mut Vec<char>)
        ensures
            final(writer)@ == old(writer)@ + self.text(),
    {
        let mut out: Vec<char> = Vec::new();
        match &self.description {
            Some(description) => {
                push_str(&mut out, "# ");
                push_str(&mut out, description.as_str());
                push_str(&mut out, "\n");
                push_str(
                    &mut out,
                    "\n# -----------------------------------------------------------------------------\n\n",
                );
            },
            None => {},
        }
        let ghost head = out@;
        let mut i: usize = 0;
        assert(head + include_lines(self.includes@, 0) =~= head);
        while i < self.includes.len()
            invariant
                i <= self.includes@.len(),
                out@ == head + include_lines(self.includes@, i as int),
            decreases self.includes@.len() - i,
        {
            push_str(&mut out, "!include ");
            push_str(&mut out, self.includes[i].name.as_str());
            push_str(&mut out, "\n");
            assert(out@ =~= head + include_lines(self.includes@, i + 1));
            i += 1;
        }
        let ghost included = out@;
        let order = self.ordered_sections();
        let ghost spec_order = section_order(self.sections@, self.sections@.len() as int);
        let mut j: usize = 0;
        assert(included + section_texts(self.sections@, spec_order, 0) =~= included);
        while j < order.len()
            invariant
                j <= order@.len(),
                order@.len() == self.sections@.len(),
                order@.map_values(|i: usize| i as int) == spec_order,
                forall|k: int|
                    0 <= k < order@.len() ==> (#[trigger] order@[k]) < self.sections@.len(),
                out@ == included + section_texts(self.sections@, spec_order, j as int),
            decreases order@.len() - j,
        {
            let ghost before = out@;
            assert(spec_order[j as int] == order@[j as int] as int);
            self.sections[order[j]].write_section(&mut out);
            assert(out@ =~= included + section_texts(self.sections@, spec_order, j + 1));
            j += 1;
        }
        let ghost sectioned = out@;
        let mut k: usize = 0;
        assert(sectioned + command_lines(self.console_cmds@, 0) =~= sectioned);
        while k < self.console_cmds.len()
            invariant
                k <= self.console_cmds@.len(),
                out@ == sectioned + command_lines(self.console_cmds@, k as int),
            decreases self.console_cmds@.len() - k,
        {
            push_str(&mut out, "ConsoleCmd ");
            push_str(&mut out, self.console_cmds[k].as_str());
            push_str(&mut out, "\n");
            assert(out@ =~= sectioned + command_lines(self.console_cmds@, k + 1));
            k += 1;
        }
        assert(out@ =~= self.text());
        push_all(writer, &out);
    }
}


/// The mathematical content of a section.
pub struct SectionView {
    pub name: Seq<char>,
    pub options: Seq<(Seq<char>, Seq<char>)>,
}

impl View for IniFileSection {
    type V = SectionView;

    open spec fn view(&self) -> SectionView {
        SectionView { name: self.name@, options: pairs(self.options@) }
    }
}

/// The contents of a sequence of sections.
pub open spec fn sections_view(sections: Seq<IniFileSection>) -> Seq<SectionView> {
    Seq::new(sections.len(), |i: int| sections[i]@)
}

/// The place among the first `count` sections of the first named `name`,
/// or `count` where none is.
pub open spec fn named_section(sections: Seq<SectionView>, name: Seq<char>, count: int) -> int
    decreases count,
{
    if count <= 0 {
        0
    } else {
        let before = named_section(sections, name, count - 1);
        if before < count - 1 {
            before
        } else if sections[count - 1].name == name {
            count - 1
        } else {
            count
        }
    }
}

/// Looking for a section by name gives the same place in the sections and
/// in their contents.
pub proof fn lemma_named_section(sections: Seq<IniFileSection>, name: Seq<char>, count: int)
    requires
        0 <= count <= sections.len(),
    ensures
        named_section(sections_view(sections), name, count) == section_at(sections, name, count),
        0 <= section_at(sections, name, count) <= count,
    decreases count,
{
    if count > 0 {
        lemma_named_section(sections, name, count - 1);
    }
}

/// What is known of a file while its lines are read.
pub struct IniState {
    pub description: Option<Seq<char>>,
    /// The names of the files that the file includes, in order.
    pub pending: Seq<Seq<char>>,
    pub sections: Seq<SectionView>,
    pub console_cmds: Seq<Seq<char>>,
    /// The name of the section that options go to.
    pub active: Seq<char>,
}

/// The state before the first line: nothing known, and options go to a
/// section named `None`, which does not exist unless the file opens it.
pub open spec fn ini_start() -> IniState {
    IniState {
        description: None,
        pending: Seq::empty(),
        sections: Seq::empty(),
        console_cmds: Seq::empty(),
        active: "None"@,
    }
}

/// The state after one more line of the file `content` is read.
///
/// - `#text` is a comment; it becomes the description where the file
///   starts with the line.
/// - `!include name` names a file to include; any other `!` line is skipped.
/// - `[name]` opens the section `name`, to which the options below go;
///   without the closing bracket the line is refused.
/// - `ConsoleCmd command` adds a console command.
/// - `name=value` sets an option of the open section, the name in upper
///   case; it is skipped where no section is open.
/// - Any other line is skipped.
pub open spec fn ini_after_line(content: Seq<char>, st: IniState, line: Seq<char>) -> Option<IniState> {
    if line.len() > 0 && line[0] == '#' {
        if occurs_at(content, line, 0) {
            Some(
                IniState {
                    description: Some(trimmed_start(line.skip(1))),
                    pending: st.pending,
                    sections: st.sections,
                    console_cmds: st.console_cmds,
                    active: st.active,
                },
            )
        } else {
            Some(st)
        }
    } else if line.len() > 0 && line[0] == '!' {
        let rest = line.skip(1);
        let space = first_index_of(rest, ' ');
        if space < rest.len() && rest.take(space) == "include"@ {
            Some(
                IniState {
                    description: st.description,
                    pending: st.pending.push(rest.skip(space + 1)),
                    sections: st.sections,
                    console_cmds: st.console_cmds,
                    active: st.active,
                },
            )
        } else {
            Some(st)
        }
    } else if line.len() > 0 && line[0] == '[' {
        if line.len() > 1 && line.last() == ']' {
            let name = line.subrange(1, line.len() - 1);
            Some(
                IniState {
                    description: st.description,
                    pending: st.pending,
                    sections: if named_section(st.sections, name, st.sections.len() as int)
                        < st.sections.len() {
                        st.sections
                    } else {
                        st.sections.push(SectionView { name, options: Seq::empty() })
                    },
                    console_cmds: st.console_cmds,
                    active: name,
                },
            )
        } else {
            None
        }
    } else if occurs_at(line, "ConsoleCmd "@, 0) {
        Some(
            IniState {
                description: st.description,
                pending: st.pending,
                sections: st.sections,
                console_cmds: st.console_cmds.push(line.skip(11)),
                active: st.active,
            },
        )
    } else if first_index_of(line, '=') < line.len() {
        let at = named_section(st.sections, st.active, st.sections.len() as int);
        if at < st.sections.len() {
            let eq = first_index_of(line, '=');
            Some(
                IniState {
                    description: st.description,
                    pending: st.pending,
                    sections: st.sections.update(
                        at,
                        SectionView {
                            name: st.sections[at].name,
                            options: with_option(
                                st.sections[at].options,
                                upper_text(line.take(eq)),
                                line.skip(eq + 1),
                            ),
                        },
                    ),
                    console_cmds: st.console_cmds,
                    active: st.active,
                },
            )
        } else {
            Some(st)
        }
    } else {
        Some(st)
    }
}

/// The state after the first `count` lines, or `None` where one is refused.
pub open spec fn ini_after_lines(content: Seq<char>, lines: Seq<Seq<char>>, count: int) -> Option<
    IniState,
>
    decreases count,
{
    if count <= 0 {
        Some(ini_start())
    } else {
        match ini_after_lines(content, lines, count - 1) {
            None => None,
            Some(st) => ini_after_line(content, st, lines[count - 1]),
        }
    }
}

proof fn lemma_ini_after_lines_fails(content: Seq<char>, lines: Seq<Seq<char>>, from: int, count: int)
    requires
        0 <= from <= count,
        ini_after_lines(content, lines, from) is None,
    ensures
        ini_after_lines(content, lines, count) is None,
    decreases count - from,
{
    if from < count {
        lemma_ini_after_lines_fails(content, lines, from, count - 1);
    }
}

/// The text of a configuration file: decrypted where the file carries the
/// header of an encrypted text file, else its bytes read as UTF-8, or
/// nothing where they are none.
pub open spec fn ini_text(content: Seq<u8>) -> Option<Seq<char>> {
    if has_header(content) {
        match decrypted_file(content) {
            Decrypted::Text(text) => Some(text),
            _ => None,
        }
    } else if valid_utf8(content) {
        Some(decode_utf8(content))
    } else {
        Some(Seq::empty())
    }
}

impl IniFileSection {
    /// Whether the options have keys of their own.
    pub open spec fn wf(&self) -> bool {
        distinct_keys(pairs(self.options@))
    }
}

impl IniFileSystem {
    /// Whether every file of the tree is well formed, and the machine can
    /// count the files.
    pub open spec fn wf(&self) -> bool {
        &&& node_count(self.root) <= usize::MAX
        &&& forall|i: int|
            0 <= i < bfs_order(seq![self.root], capped_count(self.root)).len() ==> (
            #[trigger] bfs_order(seq![self.root], capped_count(self.root))[i]).wf()
    }
}

impl IniFile {
    /// Whether the sections have names of their own, and the options of
    /// each keys of their own.
    pub open spec fn wf(&self) -> bool {
        sections_ok(sections_view(self.sections@))
    }

    /// Whether the file is what `st` says, with no includes hung in yet.
    pub open spec fn holds_state(&self, name: Seq<char>, st: IniState) -> bool {
        &&& self.name@ == name
        &&& match self.description {
            Some(d) => st.description == Some(d@),
            None => st.description is None,
        }
        &&& self.includes@.len() == 0
        &&& sections_view(self.sections@) == st.sections
        &&& strings(self.console_cmds@) == st.console_cmds
    }

    /// Reads one more line. Returns whether the line is accepted.
    fn apply_line(
        &mut self,
        content: &Vec<char>,
        pending: &mut Vec<String>,
        active: &mut String,
        line: &Vec<char>,
    ) -> (accepted: bool)
        requires
            old(self).includes@.len() == 0,
        ensures
            ({
                let before = IniState {
                    description: match old(self).description {
                        Some(d) => Some(d@),
                        None => None,
                    },
                    pending: strings(old(pending)@),
                    sections: sections_view(old(self).sections@),
                    console_cmds: strings(old(self).console_cmds@),
                    active: old(active)@,
                };
                match ini_after_line(content@, before, line@) {
                    Some(after) => accepted && final(self).holds_state(old(self).name@, after)
                        && strings(final(pending)@) == after.pending && final(active)@
                        == after.active,
                    None => !accepted,
                }
            }),
    {
        let n = line.len();
        if n > 0 && line[0] == '#' {
            if matches_at(content, line, 0) {
                let rest = slice_of(line, 1, n);
                assert(rest@ =~= line@.skip(1));
                self.description = Some(trim_start(string_of(&rest).as_str()));
            }
            return true;
        }
        if n > 0 && line[0] == '!' {
            let rest = slice_of(line, 1, n);
            assert(rest@ =~= line@.skip(1));
            match find_char(&rest, ' ') {
                Some(space) => {
                    let command = slice_of(&rest, 0, space);
                    assert(command@ =~= rest@.take(space as int));
                    if is_text(&command, "include") {
                        let value = slice_of(&rest, space + 1, rest.len());
                        assert(value@ =~= rest@.skip(space + 1));
                        let ghost was = strings(pending@);
                        pending.push(string_of(&value));
                        assert(strings(pending@) =~= was.push(value@));
                    }
                },
                None => {},
            }
            return true;
        }
        if n > 0 && line[0] == '[' {
            if n > 1 && line[n - 1] == ']' {
                let name = string_of(&slice_of(line, 1, n - 1));
                proof {
                    lemma_named_section(self.sections@, name@, self.sections@.len() as int);
                }
                if self.find_section(name.as_str()).is_none() {
                    let ghost was = sections_view(self.sections@);
                    self.sections.push(IniFileSection::new(name.clone()));
                    assert(pairs(self.sections@.last().options@) =~= Seq::empty());
                    assert(sections_view(self.sections@) =~= was.push(
                        SectionView { name: name@, options: Seq::empty() },
                    ));
                }
                *active = name;
                return true;
            }
            return false;
        }
        if starts_with(line, "ConsoleCmd ") {
            proof {
                reveal_strlit("ConsoleCmd ");
            }
            let command = slice_of(line, 11, n);
            assert(command@ =~= line@.skip(11));
            let ghost was = strings(self.console_cmds@);
            self.console_cmds.push(string_of(&command));
            assert(strings(self.console_cmds@) =~= was.push(command@));
            return true;
        }
        match find_char(line, '=') {
            Some(eq) => {
                proof {
                    lemma_named_section(self.sections@, active@, self.sections@.len() as int);
                }
                match self.find_section(active.as_str()) {
                    Some(at) => {
                        let key = slice_of(line, 0, eq);
                        let value = slice_of(line, eq + 1, n);
                        assert(key@ =~= line@.take(eq as int));
                        assert(value@ =~= line@.skip(eq + 1));
                        let ghost was = sections_view(self.sections@);
                        let mut section = self.sections.remove(at);
                        section.set_option(
                            to_upper(string_of(&key).as_str()).as_str(),
                            string_of(&value).as_str(),
                        );
                        self.sections.insert(at, section);
                        assert(sections_view(self.sections@) =~= was.update(
                            at as int,
                            SectionView {
                                name: was[at as int].name,
                                options: with_option(
                                    was[at as int].options,
                                    upper_text(key@),
                                    value@,
                                ),
                            },
                        ));
                    },
                    None => {},
                }
                true
            },
            None => true,
        }
    }
}

impl IniFileSystem {
    /// A system whose root is an empty `thumbs.dat`.
    pub fn new() -> (r: Self)
        ensures
            r.root.holds_state("thumbs.dat"@, ini_start()),
            r.wf(),
    {
        let r = Self { root: IniFile::new("thumbs.dat") };
        assert(sections_view(r.root.sections@) =~= Seq::empty());
        assert(strings(r.root.console_cmds@) =~= Seq::empty());
        proof {
            crate::misc::ini_laws::lemma_single_wf(r);
        }
        r
    }

    /// Reads the text of a configuration file from its bytes.
    pub fn read_text(content: &[u8]) -> (r: Result<String, IniFileError>)
        ensures
            match ini_text(content@) {
                Some(text) => r matches Ok(s) && s@ == text,
                None => r matches Err(IniFileError::DecryptionError(_)),
            },
    {
        if Xtea::is_encrypted_text_file(content) {
            match Xtea::decrypt_text_file(content) {
                Ok(text) => Ok(text),
                Err(e) => Err(IniFileError::DecryptionError(e)),
            }
        } else {
            let mut copy: Vec<u8> = Vec::new();
            let mut i: usize = 0;
            while i < content.len()
                invariant
                    i <= content@.len(),
                    copy@ == content@.take(i as int),
                decreases content@.len() - i,
            {
                copy.push(content[i]);
                i += 1;
                assert(content@.take(i as int) =~= content@.take(i - 1).push(content@[i - 1]));
            }
            assert(content@.take(content@.len() as int) =~= content@);
            match text_from_utf8(copy) {
                Some(text) => Ok(text),
                None => Ok(String::new()),
            }
        }
    }

    /// Reads the file `name` from its text: the file, with no includes hung
    /// in, and the names of the files it includes, in order. A section line
    /// without its closing bracket gives `ParsingError`.
    pub fn load_from_string(name: &str, ini_file_content: &str) -> (r: Result<
        (IniFile, Vec<String>),
        IniFileError,
    >)
        ensures
            match ini_after_lines(
                ini_file_content@,
                lines_of(ini_file_content@),
                lines_of(ini_file_content@).len() as int,
            ) {
                Some(st) => r matches Ok((file, pending)) && file.holds_state(name@, st)
                    && strings(pending@) == st.pending,
                None => r matches Err(IniFileError::ParsingError(_)),
            },
            r matches Ok((file, _)) ==> file.wf(),
    {
        proof {
            let lines = lines_of(ini_file_content@);
            if ini_after_lines(ini_file_content@, lines, lines.len() as int) is Some {
                crate::misc::ini_laws::lemma_lines_keep(ini_file_content@, lines, lines.len() as int);
            }
        }
        let content = chars_of(ini_file_content);
        let lines = split_lines(&content);
        let mut active_section: String = "None".to_string();
        let mut ini_file = IniFile::new(name);
        let mut pending: Vec<String> = Vec::new();
        let mut i: usize = 0;
        assert(sections_view(ini_file.sections@) =~= Seq::empty());
        assert(strings(ini_file.console_cmds@) =~= Seq::empty());
        assert(strings(pending@) =~= Seq::empty());
        while i < lines.len()
            invariant
                i <= lines@.len(),
                content@ == ini_file_content@,
                rows(lines@) == lines_of(ini_file_content@),
                ini_after_lines(content@, rows(lines@), i as int) matches Some(st)
                    && ini_file.holds_state(name@, st) && strings(pending@) == st.pending
                    && active_section@ == st.active,
            decreases lines@.len() - i,
        {
            assert(lines@[i as int]@ == rows(lines@)[i as int]);
            if !ini_file.apply_line(&content, &mut pending, &mut active_section, &lines[i]) {
                proof {
                    lemma_ini_after_lines_fails(
                        content@,
                        rows(lines@),
                        i + 1,
                        lines@.len() as int,
                    );
                }
                return Err(
                    IniFileError::ParsingError(
                        "a section should always have a closing ] bracket".to_string(),
                    ),
                );
            }
            i += 1;
        }
        Ok((ini_file, pending))
    }

    /// Reads the file `name` from its bytes, decrypting them where they are
    /// encrypted.
    pub fn load_file(name: &str, content: &[u8]) -> (r: Result<(IniFile, Vec<String>), IniFileError>)
        ensures
            match ini_text(content@) {
                None => r matches Err(IniFileError::DecryptionError(_)),
                Some(text) => match ini_after_lines(
                    text,
                    lines_of(text),
                    lines_of(text).len() as int,
                ) {
                    Some(st) => r matches Ok((file, pending)) && file.holds_state(name@, st)
                        && strings(pending@) == st.pending,
                    None => r matches Err(IniFileError::ParsingError(_)),
                },
            },
            r matches Ok((file, _)) ==> file.wf(),
    {
        match Self::read_text(content) {
            Ok(text) => Self::load_from_string(name, text.as_str()),
            Err(e) => Err(e),
        }
    }

    /// Loads the root file from its bytes and returns the names of the
    /// files it includes. The system keeps its root where this fails.
    pub fn load(&mut self, name: &str, content: &[u8]) -> (r: Result<Vec<String>, IniFileError>)
        ensures
            match ini_text(content@) {
                None => r matches Err(IniFileError::DecryptionError(_)) && final(self).root
                    == old(self).root,
                Some(text) => match ini_after_lines(
                    text,
                    lines_of(text),
                    lines_of(text).len() as int,
                ) {
                    Some(st) => r matches Ok(pending) && final(self).root.holds_state(name@, st)
                        && strings(pending@) == st.pending,
                    None => r matches Err(IniFileError::ParsingError(_)) && final(self).root
                        == old(self).root,
                },
            },
            r is Ok ==> final(self).wf(),
    {
        match Self::load_file(name, content) {
            Ok((file, pending)) => {
                self.root = file;
                proof {
                    crate::misc::ini_laws::lemma_single_wf(*self);
                }
                Ok(pending)
            },
            Err(e) => Err(e),
        }
    }

    /// A system whose root is read from the bytes of the file `name`, and
    /// the names of the files that the root includes.
    pub fn from(name: &str, content: &[u8]) -> (r: Result<(Self, Vec<String>), IniFileError>)
        ensures
            match ini_text(content@) {
                None => r matches Err(IniFileError::DecryptionError(_)),
                Some(text) => match ini_after_lines(
                    text,
                    lines_of(text),
                    lines_of(text).len() as int,
                ) {
                    Some(st) => r matches Ok((system, pending)) && system.root.holds_state(
                        name@,
                        st,
                    ) && strings(pending@) == st.pending,
                    None => r matches Err(IniFileError::ParsingError(_)),
                },
            },
            r matches Ok((system, _)) ==> system.wf(),
    {
        match Self::load_file(name, content) {
            Ok((file, pending)) => {
                let system = Self { root: file };
                proof {
                    crate::misc::ini_laws::lemma_single_wf(system);
                }
                Ok((system, pending))
            },
            Err(e) => Err(e),
        }
    }

    /// Retrieves a reference to the root IniFile of the IniFileSystem.
    pub fn root(&self) -> (r: &IniFile)
        ensures
            r == &self.root,
    {
        &self.root
    }
}


/// The console commands of all files below `file`, each file before what it includes.
pub open spec fn sub_commands(file: IniFile) -> Seq<Seq<char>>
    decreases file,
{
    included_commands(file.includes@, file.includes@.len() as int)
}

/// The console commands of the first `count` files and of all files below them.
pub open spec fn included_commands(files: Seq<IniFile>, count: int) -> Seq<Seq<char>>
    decreases files, count,
{
    if count <= 0 || count > files.len() {
        Seq::empty()
    } else {
        included_commands(files, count - 1) + strings(files[count - 1].console_cmds@)
            + sub_commands(files[count - 1])
    }
}

/// The number of files in the tree of `file`.
pub open spec fn node_count(file: IniFile) -> nat
    decreases file,
{
    1 + nodes_in(file.includes@, file.includes@.len() as int)
}

/// The number of files in the trees of the first `count` files.
pub open spec fn nodes_in(files: Seq<IniFile>, count: int) -> nat
    decreases files, count,
{
    if count <= 0 || count > files.len() {
        0
    } else {
        nodes_in(files, count - 1) + node_count(files[count - 1])
    }
}

/// The files that are reached from `queue` level by level, in at most
/// `fuel` steps: the files of the queue, then the files they include, and
/// so on, each level from left to right.
pub open spec fn bfs_order(queue: Seq<IniFile>, fuel: nat) -> Seq<IniFile>
    decreases fuel,
{
    if fuel == 0 || queue.len() == 0 {
        Seq::empty()
    } else {
        seq![queue[0]] + bfs_order(queue.skip(1) + queue[0].includes@, (fuel - 1) as nat)
    }
}

/// The value that the last of the first `count` files gives the option.
pub open spec fn latest_value(
    files: Seq<IniFile>,
    section_name: Seq<char>,
    option_name: Seq<char>,
    count: int,
) -> Option<Seq<char>>
    decreases count,
{
    if count <= 0 {
        None
    } else {
        match looked_up(files[count - 1].sections@, section_name, option_name) {
            Lookup::Value(value) => Some(value),
            _ => latest_value(files, section_name, option_name, count - 1),
        }
    }
}

/// `options` with the first `count` of `added` set, in order.
pub open spec fn with_options(
    options: Seq<(Seq<char>, Seq<char>)>,
    added: Seq<(Seq<char>, Seq<char>)>,
    count: int,
) -> Seq<(Seq<char>, Seq<char>)>
    decreases count,
{
    if count <= 0 {
        options
    } else {
        with_option(with_options(options, added, count - 1), added[count - 1].0, added[count - 1].1)
    }
}

/// `sections` with `section` merged in: added where no section has its
/// name, else its options set in the section of that name.
pub open spec fn with_section(sections: Seq<SectionView>, section: SectionView) -> Seq<SectionView> {
    let at = named_section(sections, section.name, sections.len() as int);
    if at >= sections.len() {
        sections.push(section)
    } else {
        sections.update(
            at,
            SectionView {
                name: sections[at].name,
                options: with_options(
                    sections[at].options,
                    section.options,
                    section.options.len() as int,
                ),
            },
        )
    }
}

/// `sections` with the first `count` of `added` merged in, in order.
pub open spec fn with_sections(sections: Seq<SectionView>, added: Seq<SectionView>, count: int) -> Seq<
    SectionView,
>
    decreases count,
{
    if count <= 0 {
        sections
    } else {
        with_section(with_sections(sections, added, count - 1), added[count - 1])
    }
}

/// `commands` with those of the first `count` of `added` that it lacks, in order.
pub open spec fn with_commands(commands: Seq<Seq<char>>, added: Seq<Seq<char>>, count: int) -> Seq<
    Seq<char>,
>
    decreases count,
{
    if count <= 0 {
        commands
    } else {
        let before = with_commands(commands, added, count - 1);
        if before.contains(added[count - 1]) {
            before
        } else {
            before.push(added[count - 1])
        }
    }
}

/// The sections after the first `count` of `files` are merged in, in order.
pub open spec fn merged_sections(sections: Seq<SectionView>, files: Seq<IniFile>, count: int) -> Seq<
    SectionView,
>
    decreases count,
{
    if count <= 0 {
        sections
    } else {
        let file = files[count - 1];
        with_sections(
            merged_sections(sections, files, count - 1),
            sections_view(file.sections@),
            file.sections@.len() as int,
        )
    }
}

/// The console commands after the first `count` of `files` are merged in, in order.
pub open spec fn merged_commands(commands: Seq<Seq<char>>, files: Seq<IniFile>, count: int) -> Seq<
    Seq<char>,
>
    decreases count,
{
    if count <= 0 {
        commands
    } else {
        let file = files[count - 1];
        with_commands(
            merged_commands(commands, files, count - 1),
            strings(file.console_cmds@),
            file.console_cmds@.len() as int,
        )
    }
}

/// The number of files in a tree, capped at the largest number of the machine.
pub open spec fn capped_count(file: IniFile) -> nat {
    if node_count(file) <= usize::MAX {
        node_count(file)
    } else {
        usize::MAX as nat
    }
}

fn count_nodes(file: &IniFile) -> (r: usize)
    ensures
        r == capped_count(*file),
    decreases file,
{
    let mut r: usize = 1;
    let mut i: usize = 0;
    while i < file.includes.len()
        invariant
            i <= file.includes@.len(),
            r == if 1 + nodes_in(file.includes@, i as int) <= usize::MAX {
                1 + nodes_in(file.includes@, i as int)
            } else {
                usize::MAX as nat
            },
        decreases file.includes@.len() - i,
    {
        let c = count_nodes(&file.includes[i]);
        r = if c > usize::MAX - r {
            usize::MAX
        } else {
            r + c
        };
        i += 1;
    }
    r
}

fn traverse_includes(ini_file: &IniFile, cmds: &mut Vec<String>)
    ensures
        strings(final(cmds)@) == strings(old(cmds)@) + sub_commands(*ini_file),
    decreases ini_file,
{
    let mut i: usize = 0;
    assert(strings(cmds@) + included_commands(ini_file.includes@, 0) =~= strings(cmds@));
    while i < ini_file.includes.len()
        invariant
            i <= ini_file.includes@.len(),
            strings(cmds@) == strings(old(cmds)@) + included_commands(
                ini_file.includes@,
                i as int,
            ),
        decreases ini_file.includes@.len() - i,
    {
        let file = &ini_file.includes[i];
        let ghost start = strings(cmds@);
        append_strings(cmds, &file.console_cmds);
        traverse_includes(file, cmds);
        assert(strings(cmds@) =~= strings(old(cmds)@) + included_commands(
            ini_file.includes@,
            i + 1,
        ));
        i += 1;
    }
}

fn append_strings(out: &mut Vec<String>, added: &Vec<String>)
    ensures
        strings(final(out)@) == strings(old(out)@) + strings(added@),
{
    let mut i: usize = 0;
    assert(strings(out@) + strings(added@).take(0) =~= strings(out@));
    while i < added.len()
        invariant
            i <= added@.len(),
            strings(out@) == strings(old(out)@) + strings(added@).take(i as int),
        decreases added@.len() - i,
    {
        let ghost before = strings(out@);
        out.push(added[i].clone());
        assert(strings(out@) =~= before.push(added@[i as int]@));
        assert(strings(added@).take(i + 1) =~= strings(added@).take(i as int).push(
            added@[i as int]@,
        ));
        assert(strings(out@) =~= strings(old(out)@) + strings(added@).take(i + 1));
        i += 1;
    }
    assert(strings(added@).take(added@.len() as int) =~= strings(added@));
}

impl IniFileSystem {
    /// Retrieves all console commands from the IniFileSystem, including
    /// those from included files: those of the root, then those of each
    /// included file before those of the files it includes.
    pub fn console_cmds(&self) -> (r: Vec<String>)
        ensures
            strings(r@) == strings(self.root.console_cmds@) + sub_commands(self.root),
    {
        let mut cmds: Vec<String> = Vec::new();
        assert(strings(cmds@) =~= Seq::empty());
        append_strings(&mut cmds, &self.root.console_cmds);
        assert(strings(cmds@) =~= strings(self.root.console_cmds@));
        traverse_includes(&self.root, &mut cmds);
        cmds
    }

    /// Retrieves the value of an option in a section from the
    /// IniFileSystem, including values from included files. The files are
    /// visited level by level, the root first, and the last file that has
    /// the option decides.
    pub fn option(&self, section_name: &str, option_name: &str) -> (r: Result<String, IniFileError>)
        ensures
            ({
                let files = bfs_order(seq![self.root], capped_count(self.root));
                match latest_value(files, section_name@, option_name@, files.len() as int) {
                    Some(value) => r matches Ok(found) && found@ == value,
                    None => r matches Err(IniFileError::OptionNotFound(name)) && name@
                        == option_name@,
                }
            }),
    {
        let mut order: Vec<&IniFile> = Vec::new();
        order.push(&self.root);
        let mut head: usize = 0;
        let mut fuel: usize = count_nodes(&self.root);
        let ghost all = bfs_order(seq![self.root], capped_count(self.root));
        let mut latest_value_found: Option<String> = None;
        assert(order@.map_values(|f: &IniFile| *f) =~= seq![self.root]);
        assert(order@.map_values(|f: &IniFile| *f).skip(0) =~= seq![self.root]);
        assert(Seq::<IniFile>::empty() + all =~= all);
        assert(order@.map_values(|f: &IniFile| *f).take(0) =~= Seq::<IniFile>::empty());
        while head < order.len() && fuel > 0
            invariant
                head <= order@.len(),
                order@.map_values(|f: &IniFile| *f).take(head as int) + bfs_order(
                    order@.map_values(|f: &IniFile| *f).skip(head as int),
                    fuel as nat,
                ) == all,
                match latest_value(
                    order@.map_values(|f: &IniFile| *f),
                    section_name@,
                    option_name@,
                    head as int,
                ) {
                    Some(value) => latest_value_found matches Some(found) && found@ == value,
                    None => latest_value_found is None,
                },
            decreases fuel,
        {
            let current_file: &IniFile = order[head];
            let ghost files = order@.map_values(|f: &IniFile| *f);
            assert(files[head as int] == *current_file);
            match current_file.get_option(section_name, option_name) {
                Ok(value) => {
                    latest_value_found = Some(value);
                },
                Err(_) => {},
            }
            let mut i: usize = 0;
            assert(files + current_file.includes@.take(0) =~= files);
            while i < current_file.includes.len()
                invariant
                    i <= current_file.includes@.len(),
                    head < order@.len(),
                    order@.map_values(|f: &IniFile| *f) == files + current_file.includes@.take(
                        i as int,
                    ),
                decreases current_file.includes@.len() - i,
            {
                let ghost before = order@.map_values(|f: &IniFile| *f);
                order.push(&current_file.includes[i]);
                assert(order@.map_values(|f: &IniFile| *f) =~= before.push(
                    current_file.includes@[i as int],
                ));
                assert(current_file.includes@.take(i + 1) =~= current_file.includes@.take(
                    i as int,
                ).push(current_file.includes@[i as int]));
                assert(order@.map_values(|f: &IniFile| *f) =~= files
                    + current_file.includes@.take(i + 1));
                i += 1;
            }
            proof {
                let after = order@.map_values(|f: &IniFile| *f);
                assert(current_file.includes@.take(current_file.includes@.len() as int)
                    =~= current_file.includes@);
                assert(after.skip(head + 1) =~= files.skip(head as int).skip(1)
                    + current_file.includes@);
                assert(files.skip(head as int)[0] == *current_file);
                assert(after.take(head + 1) =~= files.take(head as int) + seq![*current_file]);
                assert(after.take(head + 1) + bfs_order(after.skip(head + 1), (fuel - 1) as nat)
                    =~= files.take(head as int) + (seq![*current_file] + bfs_order(
                    after.skip(head + 1),
                    (fuel - 1) as nat,
                )));
                assert(after[head as int] == files[head as int]);
                lemma_latest_value_prefix(
                    files,
                    after,
                    section_name@,
                    option_name@,
                    head as int,
                );
            }
            head += 1;
            fuel -= 1;
        }
        proof {
            let files = order@.map_values(|f: &IniFile| *f);
            assert(bfs_order(files.skip(head as int), fuel as nat) =~= Seq::<IniFile>::empty());
            assert(files.take(head as int) =~= all);
            lemma_latest_value_prefix(all, files, section_name@, option_name@, head as int);
        }
        match latest_value_found {
            Some(value) => Ok(value),
            None => Err(IniFileError::OptionNotFound(option_name.to_string())),
        }
    }
}

/// The latest value among the first files depends on those files only.
proof fn lemma_latest_value_prefix(
    a: Seq<IniFile>,
    b: Seq<IniFile>,
    section_name: Seq<char>,
    option_name: Seq<char>,
    count: int,
)
    requires
        0 <= count <= a.len(),
        count <= b.len(),
        forall|i: int| 0 <= i < count ==> a[i] == b[i],
    ensures
        latest_value(a, section_name, option_name, count) == latest_value(
            b,
            section_name,
            option_name,
            count,
        ),
    decreases count,
{
    if count > 0 {
        lemma_latest_value_prefix(a, b, section_name, option_name, count - 1);
    }
}


impl IniFileSection {
    /// Sets every option of `added`, in order.
    pub fn set_options(&mut self, added: &Vec<(String, String)>)
        ensures
            final(self).name == old(self).name,
            pairs(final(self).options@) == with_options(
                pairs(old(self).options@),
                pairs(added@),
                added@.len() as int,
            ),
            old(self).wf() ==> final(self).wf(),
    {
        proof {
            if self.wf() {
                crate::misc::ini_laws::lemma_with_options_keeps(
                    pairs(self.options@),
                    pairs(added@),
                    added@.len() as int,
                );
            }
        }
        let mut i: usize = 0;
        while i < added.len()
            invariant
                i <= added@.len(),
                self.name == old(self).name,
                pairs(self.options@) == with_options(
                    pairs(old(self).options@),
                    pairs(added@),
                    i as int,
                ),
            decreases added@.len() - i,
        {
            assert(pairs(added@)[i as int] == (added@[i as int].0@, added@[i as int].1@));
            self.set_option(added[i].0.as_str(), added[i].1.as_str());
            i += 1;
        }
    }
}

impl IniFile {
    /// Merges a section in: it is added where the file has no section of
    /// its name, else its options are set in the section of that name.
    pub fn merge_section(&mut self, section: IniFileSection)
        ensures
            final(self).name == old(self).name,
            final(self).description == old(self).description,
            final(self).includes == old(self).includes,
            final(self).console_cmds == old(self).console_cmds,
            sections_view(final(self).sections@) == with_section(
                sections_view(old(self).sections@),
                section@,
            ),
            old(self).wf() && section.wf() ==> final(self).wf(),
    {
        let ghost was = sections_view(self.sections@);
        proof {
            if section.wf() {
                crate::misc::ini_laws::lemma_with_section(was, section@, section.name@, section.name@);
            }
            lemma_named_section(self.sections@, section.name@, self.sections@.len() as int);
        }
        match self.find_section(section.name.as_str()) {
            Some(at) => {
                let mut root_section = self.sections.remove(at);
                root_section.set_options(&section.options);
                self.sections.insert(at, root_section);
                assert(sections_view(self.sections@) =~= with_section(was, section@));
            },
            None => {
                self.sections.push(section);
                assert(sections_view(self.sections@) =~= was.push(section@));
            },
        }
    }

    /// Adds the console commands of `added` that the file lacks, in order.
    pub fn merge_commands(&mut self, added: &Vec<String>)
        ensures
            final(self).name == old(self).name,
            final(self).description == old(self).description,
            final(self).includes == old(self).includes,
            final(self).sections == old(self).sections,
            strings(final(self).console_cmds@) == with_commands(
                strings(old(self).console_cmds@),
                strings(added@),
                added@.len() as int,
            ),
    {
        let mut i: usize = 0;
        while i < added.len()
            invariant
                i <= added@.len(),
                self.name == old(self).name,
                self.description == old(self).description,
                self.includes == old(self).includes,
                self.sections == old(self).sections,
                strings(self.console_cmds@) == with_commands(
                    strings(old(self).console_cmds@),
                    strings(added@),
                    i as int,
                ),
            decreases added@.len() - i,
        {
            let wanted = chars_of(added[i].as_str());
            let mut found = false;
            let mut k: usize = 0;
            while k < self.console_cmds.len()
                invariant
                    k <= self.console_cmds@.len(),
                    wanted@ == added@[i as int]@,
                    found <==> exists|m: int|
                        0 <= m < k && strings(self.console_cmds@)[m] == wanted@,
                decreases self.console_cmds@.len() - k,
            {
                if same_chars(&chars_of(self.console_cmds[k].as_str()), &wanted) {
                    assert(strings(self.console_cmds@)[k as int] == wanted@);
                    found = true;
                }
                k += 1;
            }
            assert(strings(added@)[i as int] == wanted@);
            if !found {
                let ghost before = strings(self.console_cmds@);
                self.console_cmds.push(added[i].clone());
                assert(strings(self.console_cmds@) =~= before.push(wanted@));
            }
            i += 1;
        }
    }
}

impl IniFileSystem {
    /// Normalizes the IniFileSystem by merging sections and console
    /// commands from included files into the root file. The included files
    /// are visited level by level and leave the tree.
    pub fn normalize(&mut self)
        ensures
            final(self).root.name == old(self).root.name,
            final(self).root.description == old(self).root.description,
            final(self).root.includes@.len() == 0,
            ({
                let files = bfs_order(old(self).root.includes@, capped_count(old(self).root));
                &&& sections_view(final(self).root.sections@) == merged_sections(
                    sections_view(old(self).root.sections@),
                    files,
                    files.len() as int,
                )
                &&& strings(final(self).root.console_cmds@) == merged_commands(
                    strings(old(self).root.console_cmds@),
                    files,
                    files.len() as int,
                )
            }),
            old(self).wf() ==> final(self).wf(),
    {
        let mut fuel: usize = count_nodes(&self.root);
        let mut queue: Vec<IniFile> = Vec::new();
        std::mem::swap(&mut queue, &mut self.root.includes);
        let ghost all = bfs_order(old(self).root.includes@, capped_count(old(self).root));
        let ghost mut done: Seq<IniFile> = Seq::empty();
        assert(done + all =~= all);
        while queue.len() > 0 && fuel > 0
            invariant
                self.root.name == old(self).root.name,
                self.root.description == old(self).root.description,
                self.root.includes@.len() == 0,
                done + bfs_order(queue@, fuel as nat) == all,
                sections_view(self.root.sections@) == merged_sections(
                    sections_view(old(self).root.sections@),
                    done,
                    done.len() as int,
                ),
                strings(self.root.console_cmds@) == merged_commands(
                    strings(old(self).root.console_cmds@),
                    done,
                    done.len() as int,
                ),
            decreases fuel,
        {
            let ghost before_queue = queue@;
            let mut current_file = queue.remove(0);
            let ghost current = current_file;
            assert(current == before_queue[0]);
            assert(queue@ =~= before_queue.skip(1));
            let ghost start_sections = sections_view(self.root.sections@);
            let mut sections: Vec<IniFileSection> = Vec::new();
            std::mem::swap(&mut sections, &mut current_file.sections);
            let ghost added = sections_view(sections@);
            let total: usize = sections.len();
            let mut taken: usize = 0;
            while sections.len() > 0
                invariant
                    self.root.name == old(self).root.name,
                    self.root.description == old(self).root.description,
                    self.root.includes@.len() == 0,
                    taken + sections@.len() == total,
                    total == added.len(),
                    forall|k: int|
                        0 <= k < sections@.len() ==> (#[trigger] sections@[k])@ == added[taken + k],
                    sections_view(self.root.sections@) == with_sections(
                        start_sections,
                        added,
                        taken as int,
                    ),
                    strings(self.root.console_cmds@) == merged_commands(
                        strings(old(self).root.console_cmds@),
                        done,
                        done.len() as int,
                    ),
                decreases sections@.len(),
            {
                let ghost before = sections@;
                let section = sections.remove(0);
                assert(section@ == added[taken + 0]);
                assert forall|k: int| 0 <= k < sections@.len() implies (#[trigger] sections@[k])@
                    == added[taken + 1 + k] by {
                    assert(sections@[k] == before[k + 1]);
                }
                self.root.merge_section(section);
                taken = taken + 1;
            }
            self.root.merge_commands(&current_file.console_cmds);
            queue.append(&mut current_file.includes);
            proof {
                assert(queue@ =~= before_queue.skip(1) + current.includes@);
                let next = done.push(current);
                assert(next.drop_last() =~= done);
                assert(done + (seq![current] + bfs_order(queue@, (fuel - 1) as nat)) =~= next
                    + bfs_order(queue@, (fuel - 1) as nat));
                lemma_merged_prefix(
                    sections_view(old(self).root.sections@),
                    strings(old(self).root.console_cmds@),
                    done,
                    next,
                    done.len() as int,
                );
                done = next;
            }
            fuel -= 1;
        }
        proof {
            assert(bfs_order(queue@, fuel as nat) =~= Seq::<IniFile>::empty());
            assert(done =~= all);
            if old(self).wf() {
                crate::misc::ini_laws::law_normalize_keeps_lookups(
                    *old(self),
                    *self,
                    Seq::empty(),
                    Seq::empty(),
                );
                crate::misc::ini_laws::lemma_single_wf(*self);
            }
        }
    }
}

/// What merging the first files gives depends on those files only.
proof fn lemma_merged_prefix(
    sections: Seq<SectionView>,
    commands: Seq<Seq<char>>,
    a: Seq<IniFile>,
    b: Seq<IniFile>,
    count: int,
)
    requires
        0 <= count <= a.len(),
        count <= b.len(),
        forall|i: int| 0 <= i < count ==> a[i] == b[i],
    ensures
        merged_sections(sections, a, count) == merged_sections(sections, b, count),
        merged_commands(commands, a, count) == merged_commands(commands, b, count),
    decreases count,
{
    if count > 0 {
        lemma_merged_prefix(sections, commands, a, b, count - 1);
    }
}

} // verus!
