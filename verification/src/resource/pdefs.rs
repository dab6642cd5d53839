//! Partition identifiers and the partition definitions of a game.

use crate::encryption::xtea::{decrypted_file, has_header, Decrypted, Xtea, XteaError};
use crate::misc::ini_file_system::{
    option_value,
    pairs,
    section_at,
    IniFileError,
    IniFileSystem,
};
use crate::misc::resource_id::{parsed_uri, ResourceID};
use crate::pattern::{captures, first_match, group, group_text, groups_view};
use crate::resource::resource_partition::PatchId;
use crate::text::{
    chars_of,
    decimal,
    is_text,
    lines_of,
    matches_at,
    occurs_at,
    parse_u64,
    parsed_u64,
    push_all,
    push_decimal,
    push_str,
    rows,
    same_chars,
    split_lines,
    starts_with,
    string_of,
    text_from_utf8,
    trim,
    trimmed,
};
use crate::WoaVersion;
use vstd::prelude::*;
use vstd::utf8::{decode_utf8, valid_utf8};

pub mod h2016_parser;
pub mod hm2_parser;
pub mod hm3_parser;

verus! {

/// The kind of a partition. The language variants carry their language code.
#[derive(Clone, Debug, PartialEq)]
pub enum PartitionType {
    Standard,
    Addon,
    Dlc,
    LanguageStandard(String),
    LanguageDlc(String),
}

impl Default for PartitionType {
    fn default() -> (r: Self)
        ensures
            r == PartitionType::Standard,
    {
        PartitionType::Standard
    }
}

/// The mathematical content of a `PartitionType`.
pub enum PartitionTypeView {
    Standard,
    Addon,
    Dlc,
    LanguageStandard(Seq<char>),
    LanguageDlc(Seq<char>),
}

impl View for PartitionType {
    type V = PartitionTypeView;

    open spec fn view(&self) -> PartitionTypeView {
        match self {
            PartitionType::Standard => PartitionTypeView::Standard,
            PartitionType::Addon => PartitionTypeView::Addon,
            PartitionType::Dlc => PartitionTypeView::Dlc,
            PartitionType::LanguageStandard(lang) => PartitionTypeView::LanguageStandard(lang@),
            PartitionType::LanguageDlc(lang) => PartitionTypeView::LanguageDlc(lang@),
        }
    }
}

impl PartitionType {
    /// Whether two kinds are the same, language code included.
    pub fn same_as(&self, other: &PartitionType) -> (r: bool)
        ensures
            r == (self@ == other@),
    {
        match (self, other) {
            (PartitionType::Standard, PartitionType::Standard) => true,
            (PartitionType::Addon, PartitionType::Addon) => true,
            (PartitionType::Dlc, PartitionType::Dlc) => true,
            (PartitionType::LanguageStandard(a), PartitionType::LanguageStandard(b)) => {
                let r = same_chars(&chars_of(a.as_str()), &chars_of(b.as_str()));
                r
            },
            (PartitionType::LanguageDlc(a), PartitionType::LanguageDlc(b)) => {
                let r = same_chars(&chars_of(a.as_str()), &chars_of(b.as_str()));
                r
            },
            _ => false,
        }
    }
}

/// The identifier of a partition: its kind and its number among the
/// partitions of that kind.
#[derive(Clone, Debug, PartialEq)]
pub struct PartitionId {
    pub part_type: PartitionType,
    pub index: usize,
}

/// The mathematical content of a `PartitionId`.
pub struct PartitionIdView {
    pub part_type: PartitionTypeView,
    pub index: usize,
}

impl View for PartitionId {
    type V = PartitionIdView;

    open spec fn view(&self) -> PartitionIdView {
        PartitionIdView { part_type: self.part_type@, index: self.index }
    }
}

impl Default for PartitionId {
    fn default() -> (r: Self)
        ensures
            r@ == (PartitionIdView { part_type: PartitionTypeView::Standard, index: 0 }),
    {
        PartitionId { part_type: PartitionType::Standard, index: 0 }
    }
}

impl PartitionIdView {
    /// The name of the partition: `chunk` or `dlc`, the number, and for a
    /// language variant `lang` and the language code.
    pub open spec fn name(self) -> Seq<char> {
        match self.part_type {
            PartitionTypeView::Standard => "chunk"@ + decimal(self.index as nat),
            PartitionTypeView::Addon => "chunk"@ + decimal(self.index as nat),
            PartitionTypeView::Dlc => "dlc"@ + decimal(self.index as nat),
            PartitionTypeView::LanguageStandard(lang) => "chunk"@ + decimal(self.index as nat)
                + "lang"@ + lang,
            PartitionTypeView::LanguageDlc(lang) => "dlc"@ + decimal(self.index as nat) + "lang"@
                + lang,
        }
    }

    /// The name of the file that holds the given archive of the partition.
    pub open spec fn filename(self, patch_index: PatchId) -> Seq<char> {
        match patch_index {
            PatchId::Base => self.name() + ".rpkg"@,
            PatchId::Patch(n) => self.name() + "patch"@ + decimal(n as nat) + ".rpkg"@,
        }
    }
}

impl PartitionId {
    /// Whether two identifiers are the same.
    pub fn same_as(&self, other: &PartitionId) -> (r: bool)
        ensures
            r == (self@ == other@),
    {
        self.index == other.index && self.part_type.same_as(&other.part_type)
    }

    fn name_chars(&self) -> (r: Vec<char>)
        ensures
            r@ == self@.name(),
    {
        let mut out: Vec<char> = Vec::new();
        match &self.part_type {
            PartitionType::Standard => {
                push_str(&mut out, "chunk");
                push_decimal(&mut out, self.index as u64);
            },
            PartitionType::Addon => {
                push_str(&mut out, "chunk");
                push_decimal(&mut out, self.index as u64);
            },
            PartitionType::Dlc => {
                push_str(&mut out, "dlc");
                push_decimal(&mut out, self.index as u64);
            },
            PartitionType::LanguageStandard(lang) => {
                push_str(&mut out, "chunk");
                push_decimal(&mut out, self.index as u64);
                push_str(&mut out, "lang");
                push_str(&mut out, lang.as_str());
            },
            PartitionType::LanguageDlc(lang) => {
                push_str(&mut out, "dlc");
                push_decimal(&mut out, self.index as u64);
                push_str(&mut out, "lang");
                push_str(&mut out, lang.as_str());
            },
        }
        assert(out@ =~= self@.name());
        out
    }

    /// The name of the partition, such as `chunk9`, `dlc12` or `dlc5langjp`.
    pub fn to_string(&self) -> (r: String)
        ensures
            r@ == self@.name(),
    {
        string_of(&self.name_chars())
    }

    /// The name of the file that holds the given archive of the partition:
    /// the name of the partition, `patch` and the number for a patch, and
    /// `.rpkg`.
    pub fn to_filename(&self, patch_index: PatchId) -> (r: String)
        ensures
            r@ == self@.filename(patch_index),
    {
        let mut out = self.name_chars();
        match patch_index {
            PatchId::Base => {
                push_str(&mut out, ".rpkg");
            },
            PatchId::Patch(patch_idx) => {
                push_str(&mut out, "patch");
                push_decimal(&mut out, patch_idx as u64);
                push_str(&mut out, ".rpkg");
            },
        }
        assert(out@ =~= self@.filename(patch_index));
        string_of(&out)
    }
}


/// Represents information about a resource partition.
#[derive(Clone, Debug)]
pub struct PartitionInfo {
    /// The name of the partition, if available.
    pub name: Option<String>,
    /// The parent partition's identifier, if any.
    pub parent: Option<PartitionId>,
    /// The identifier of the partition.
    /// Example: "chunk9", "dlc12" or "dlc5langjp"
    pub id: PartitionId,
    /// The patch level of the partition. Note: This is used an an upper bound, any patch above this level will be ignored.
    pub patch_level: usize,
    /// The list of resource IDs associated with this partition.
    pub roots: Vec<ResourceID>,
}

/// The mathematical content of a `PartitionInfo`.
pub struct PartitionInfoView {
    pub name: Option<Seq<char>>,
    pub parent: Option<PartitionIdView>,
    pub id: PartitionIdView,
    pub patch_level: usize,
    pub roots: Seq<Seq<char>>,
}

/// The texts of a sequence of resource ids.
pub open spec fn roots_view(roots: Seq<ResourceID>) -> Seq<Seq<char>> {
    Seq::new(roots.len(), |i: int| roots[i]@)
}

impl View for PartitionInfo {
    type V = PartitionInfoView;

    open spec fn view(&self) -> PartitionInfoView {
        PartitionInfoView {
            name: match self.name {
                Some(n) => Some(n@),
                None => None,
            },
            parent: match self.parent {
                Some(p) => Some(p@),
                None => None,
            },
            id: self.id@,
            patch_level: self.patch_level,
            roots: roots_view(self.roots@),
        }
    }
}

impl PartitionId {
    /// A copy of the identifier.
    pub fn duplicate(&self) -> (r: PartitionId)
        ensures
            r@ == self@,
    {
        PartitionId {
            part_type: match &self.part_type {
                PartitionType::Standard => PartitionType::Standard,
                PartitionType::Addon => PartitionType::Addon,
                PartitionType::Dlc => PartitionType::Dlc,
                PartitionType::LanguageStandard(lang) => PartitionType::LanguageStandard(
                    lang.clone(),
                ),
                PartitionType::LanguageDlc(lang) => PartitionType::LanguageDlc(lang.clone()),
            },
            index: self.index,
        }
    }
}

impl PartitionInfo {
    /// A copy of the information.
    pub fn duplicate(&self) -> (r: PartitionInfo)
        ensures
            r@ == self@,
    {
        let mut roots: Vec<ResourceID> = Vec::new();
        let mut i: usize = 0;
        while i < self.roots.len()
            invariant
                i <= self.roots@.len(),
                roots@.len() == i,
                roots_view(roots@) == roots_view(self.roots@).take(i as int),
            decreases self.roots@.len() - i,
        {
            let ghost before = roots@;
            roots.push(self.roots[i].duplicate());
            i += 1;
            assert forall|j: int| 0 <= j < i implies roots_view(roots@)[j] == roots_view(
                self.roots@,
            ).take(i as int)[j] by {
                if j < i - 1 {
                    assert(roots_view(before)[j] == roots_view(self.roots@).take(i - 1)[j]);
                }
            }
            assert(roots_view(roots@) =~= roots_view(self.roots@).take(i as int));
        }
        assert(roots_view(self.roots@).take(self.roots@.len() as int) =~= roots_view(self.roots@));
        PartitionInfo {
            name: match &self.name {
                Some(n) => Some(n.clone()),
                None => None,
            },
            parent: match &self.parent {
                Some(p) => Some(p.duplicate()),
                None => None,
            },
            id: self.id.duplicate(),
            patch_level: self.patch_level,
            roots,
        }
    }

    /// The name of the file that holds the given archive of the partition.
    pub fn filename(&self, patch_index: PatchId) -> (r: String)
        ensures
            r@ == self@.id.filename(patch_index),
    {
        self.id.to_filename(patch_index)
    }

    /// Adds a root, behind those the partition has.
    pub fn add_root(&mut self, resource_id: ResourceID)
        ensures
            final(self)@.roots == old(self)@.roots.push(resource_id@),
            final(self)@.name == old(self)@.name,
            final(self)@.parent == old(self)@.parent,
            final(self)@.id == old(self)@.id,
            final(self)@.patch_level == old(self)@.patch_level,
    {
        self.roots.push(resource_id);
        assert(roots_view(self.roots@) =~= roots_view(old(self).roots@).push(resource_id@));
    }

    pub fn roots(&self) -> (r: &Vec<ResourceID>)
        ensures
            r == &self.roots,
    {
        &self.roots
    }

    pub fn name(&self) -> (r: &Option<String>)
        ensures
            r == &self.name,
    {
        &self.name
    }

    pub fn parent(&self) -> (r: &Option<PartitionId>)
        ensures
            r == &self.parent,
    {
        &self.parent
    }

    pub fn id(&self) -> (r: PartitionId)
        ensures
            r@ == self@.id,
    {
        self.id.duplicate()
    }

    /// The highest patch that is mounted; patches above it are ignored.
    pub fn max_patch_level(&self) -> (r: usize)
        ensures
            r == self.patch_level,
    {
        self.patch_level
    }

    pub fn set_max_patch_level(&mut self, patch_level: usize)
        ensures
            final(self)@.patch_level == patch_level,
            final(self)@.roots == old(self)@.roots,
            final(self)@.name == old(self)@.name,
            final(self)@.parent == old(self)@.parent,
            final(self)@.id == old(self)@.id,
    {
        self.patch_level = patch_level
    }
}


#[derive(Debug)]
pub enum PackageDefinitionError {
    /// The file is no UTF-8.
    TextEncodingError,
    /// The file is encrypted and could not be decrypted.
    DecryptionError(XteaError),
    /// Invalid packagedefinition file.
    UnexpectedFormat(String),
    /// Failed to read packagedefinition.txt.
    FailedToRead(String),
}

#[derive(Debug)]
pub enum PartitionIdError {
    /// Couldn't recognize the partition id.
    ParsingError(String),
    /// Couldn't compile the pattern.
    RegexError(String),
}

#[derive(Debug)]
pub enum PartitionInfoError {
    /// Couldn't init with the partition id.
    IdError(PartitionIdError),
}

/// `s` from `from` on without every `pat`, taken from left to right.
pub open spec fn without_sub(s: Seq<char>, pat: Seq<char>, from: int) -> Seq<char>
    decreases s.len() - from,
{
    if from >= s.len() || from < 0 {
        Seq::empty()
    } else if pat.len() > 0 && occurs_at(s, pat, from) {
        without_sub(s, pat, from + pat.len())
    } else {
        seq![s[from]] + without_sub(s, pat, from + 1)
    }
}

/// Takes every `pat` out of `s`, from left to right.
pub fn remove_sub(s: &Vec<char>, pat: &str) -> (r: Vec<char>)
    ensures
        r@ == without_sub(s@, pat@, 0),
{
    let p = chars_of(pat);
    let mut r: Vec<char> = Vec::new();
    let mut i: usize = 0;
    assert(r@ + without_sub(s@, p@, 0) =~= without_sub(s@, p@, 0));
    while i < s.len()
        invariant
            i <= s@.len(),
            p@ == pat@,
            r@ + without_sub(s@, p@, i as int) == without_sub(s@, p@, 0),
        decreases s@.len() - i,
    {
        if p.len() > 0 && matches_at(s, &p, i) {
            i += p.len();
        } else {
            let ghost before = r@;
            r.push(s[i]);
            assert(r@ + without_sub(s@, p@, i + 1) =~= before + (seq![s@[i as int]] + without_sub(
                s@,
                p@,
                i + 1,
            )));
            i += 1;
        }
    }
    assert(r@ + without_sub(s@, p@, i as int) =~= r@);
    r
}

/// The pattern that recognises the name of a partition or of one of its archives.
pub open spec fn partition_id_pattern() -> Seq<char> {
    "^(chunk|dlc)(\\d+)(\\p{L}*)(?:patch\\d+)?$"@
}

/// A number of the machine's size that the decimal digits of `s` write.
pub open spec fn parsed_usize(s: Seq<char>) -> Option<usize> {
    match parsed_u64(s, 10) {
        Some(n) => if n <= usize::MAX {
            Some(n as usize)
        } else {
            None
        },
        None => None,
    }
}

/// Reads a number of the machine's size from decimal digits.
pub fn parse_usize(s: &Vec<char>) -> (r: Option<usize>)
    ensures
        r == parsed_usize(s@),
{
    match parse_u64(s, 10) {
        Some(n) => {
            if n <= usize::MAX as u64 {
                Some(n as usize)
            } else {
                None
            }
        },
        None => None,
    }
}

/// The identifier that the groups of a match of the partition pattern hold:
/// `chunk` or `dlc` in the first group, the number in the second, and in
/// the third the language, of which every `lang` is dropped. `None` where
/// the number is more than the machine can count.
pub open spec fn partition_id_from(groups: Seq<Option<Seq<char>>>) -> Option<PartitionIdView> {
    let lang = group_text(groups, 3);
    let code = without_sub(lang, "lang"@, 0);
    let part_type = if group_text(groups, 1) == "dlc"@ {
        if lang.len() == 0 {
            PartitionTypeView::Dlc
        } else {
            PartitionTypeView::LanguageDlc(code)
        }
    } else {
        if lang.len() == 0 {
            PartitionTypeView::Standard
        } else {
            PartitionTypeView::LanguageStandard(code)
        }
    };
    match parsed_usize(group_text(groups, 2)) {
        Some(index) => Some(PartitionIdView { part_type, index }),
        None => None,
    }
}

impl PartitionId {
    /// Makes an identifier of the groups of a match of the partition
    /// pattern; without a match, and for a number that the machine cannot
    /// count, `ParsingError`.
    pub fn from_captures(found: &Option<Vec<Option<String>>>) -> (r: Result<Self, PartitionIdError>)
        ensures
            match found {
                Some(groups) => match partition_id_from(groups_view(groups@)) {
                    Some(id) => r matches Ok(made) && made@ == id,
                    None => r matches Err(PartitionIdError::ParsingError(_)),
                },
                None => r matches Err(PartitionIdError::ParsingError(_)),
            },
    {
        let groups = match found {
            Some(groups) => groups,
            None => {
                return Err(
                    PartitionIdError::ParsingError("Unable to parse a partitionId".to_string()),
                );
            },
        };
        let kind = group(groups, 1);
        let lang = group(groups, 3);
        let part_type = if is_text(&kind, "dlc") {
            if lang.len() == 0 {
                PartitionType::Dlc
            } else {
                PartitionType::LanguageDlc(string_of(&remove_sub(&lang, "lang")))
            }
        } else {
            if lang.len() == 0 {
                PartitionType::Standard
            } else {
                PartitionType::LanguageStandard(string_of(&remove_sub(&lang, "lang")))
            }
        };
        match parse_usize(&group(groups, 2)) {
            Some(index) => Ok(Self { part_type, index }),
            None => Err(
                PartitionIdError::ParsingError("Unable to parse the partition index".to_string()),
            ),
        }
    }

    /// Reads an identifier from the name of a partition or of one of its
    /// archives, such as `chunk9`, `dlc5langjp` or `chunk0patch2`.
    pub fn parse(id: &str) -> (r: Result<Self, PartitionIdError>)
        ensures
            match first_match(partition_id_pattern(), id@) {
                Some(groups) => match partition_id_from(groups) {
                    Some(made) => r matches Ok(found) && found@ == made,
                    None => r matches Err(PartitionIdError::ParsingError(_)),
                },
                None => r matches Err(PartitionIdError::ParsingError(_)),
            },
    {
        let found = captures("^(chunk|dlc)(\\d+)(\\p{L}*)(?:patch\\d+)?$", id);
        Self::from_captures(&found)
    }
}

impl PartitionInfo {
    /// The information of the partition `id`, with no name, parent or roots
    /// and the patch level 0.
    pub fn from_id(id: &str) -> (r: Result<Self, PartitionInfoError>)
        ensures
            match first_match(partition_id_pattern(), id@) {
                Some(groups) => match partition_id_from(groups) {
                    Some(made) => r matches Ok(info) && info@ == (PartitionInfoView {
                        name: None,
                        parent: None,
                        id: made,
                        patch_level: 0,
                        roots: Seq::empty(),
                    }),
                    None => r matches Err(PartitionInfoError::IdError(_)),
                },
                None => r matches Err(PartitionInfoError::IdError(_)),
            },
    {
        match PartitionId::parse(id) {
            Ok(id) => {
                let info = Self { name: None, parent: None, id, patch_level: 0, roots: Vec::new() };
                assert(info@.roots =~= Seq::empty());
                Ok(info)
            },
            Err(e) => Err(PartitionInfoError::IdError(e)),
        }
    }
}

/// The three forms of the partition definitions, by the game that wrote them.
#[derive(Debug, PartialEq, Eq, Structural, Clone, Copy)]
pub enum Dialect {
    /// Hitman 2016: `#chunk patchlevel=N`, `#dlc patchlevel=N`, `#langdlc LANG`, `##` comments.
    H2016,
    /// Hitman 2: `@chunk patchlevel=N`, `@dlc patchlevel=N`, `//` comments.
    HM2,
    /// Hitman 3: `@partition name=X parent=Y type=T patchlevel=N`.
    HM3,
}

/// The pattern of the line that opens a partition.
pub open spec fn partition_pattern(dialect: Dialect) -> Seq<char> {
    match dialect {
        Dialect::H2016 => "#([A-z]+) patchlevel=([0-9]+)"@,
        Dialect::HM2 => "@([A-z]+) patchlevel=([0-9]+)"@,
        Dialect::HM3 => "@partition name=(.+?) parent=(.+?) type=(.+?) patchlevel=(.\\d*)"@,
    }
}

/// The pattern of the comment that names the partition opened below it.
pub open spec fn name_pattern(dialect: Dialect) -> Seq<char> {
    match dialect {
        Dialect::H2016 => "## --- +(?:DLC|Chunk )\\d{2} (.*)"@,
        _ => "// --- (?:DLC|Chunk) \\d{2} (.*)"@,
    }
}

/// The pattern of the line that makes a language variant of every partition.
pub open spec fn langdlc_pattern() -> Seq<char> {
    "#langdlc ([A-z]+)"@
}

/// The pattern of the line that names a root resource.
pub open spec fn root_pattern() -> Seq<char> {
    "(\\[[a-z]+:/.+?]).([a-z]+)"@
}

/// The mark that opens a comment.
pub open spec fn comment_mark(dialect: Dialect) -> Seq<char> {
    match dialect {
        Dialect::H2016 => "##"@,
        _ => "//"@,
    }
}

/// The number of partitions among the first `count` that have the kind `part_type`.
pub open spec fn count_kind(
    partitions: Seq<PartitionInfoView>,
    part_type: PartitionTypeView,
    count: int,
) -> nat
    decreases count,
{
    if count <= 0 {
        0
    } else {
        count_kind(partitions, part_type, count - 1) + if partitions[count - 1].id.part_type
            == part_type {
            1nat
        } else {
            0nat
        }
    }
}

/// The place among the first `count` partitions of the first that is named
/// `name`, or `count` where none is.
pub open spec fn named_at(partitions: Seq<PartitionInfoView>, name: Seq<char>, count: int) -> int
    decreases count,
{
    if count <= 0 {
        0
    } else {
        let before = named_at(partitions, name, count - 1);
        if before < count - 1 {
            before
        } else if partitions[count - 1].name == Some(name) {
            count - 1
        } else {
            count
        }
    }
}

/// The name that the two lines above a partition give it: what the name
/// pattern finds in the upper one, else in the lower one.
pub open spec fn partition_name(dialect: Dialect, upper: Seq<char>, lower: Seq<char>) -> Option<
    Seq<char>,
> {
    match first_match(name_pattern(dialect), upper) {
        Some(groups) => Some(group_text(groups, 1)),
        None => match first_match(name_pattern(dialect), lower) {
            Some(groups) => Some(group_text(groups, 1)),
            None => None,
        },
    }
}

/// The partition that a line opens, from the groups of its match. In the
/// two older dialects its kind is read from the first group, its number
/// counts the partitions of that kind so far, its parent is the first
/// partition of the file, and its name comes from the lines above. In the
/// newest its name, the name of its parent and its kind are the first three
/// groups, and its number is the number of partitions so far; a parent
/// that no partition so far is named after is no parent. `None` where the
/// patch level is no number that the machine can count.
pub open spec fn opened_partition(
    dialect: Dialect,
    partitions: Seq<PartitionInfoView>,
    upper: Seq<char>,
    lower: Seq<char>,
    groups: Seq<Option<Seq<char>>>,
) -> Option<PartitionInfoView> {
    opened_with(dialect, partitions, partition_name(dialect, upper, lower), groups)
}

/// The partition that a line opens, given the name that the lines above
/// give it, which the newest dialect does not look at.
pub open spec fn opened_with(
    dialect: Dialect,
    partitions: Seq<PartitionInfoView>,
    name: Option<Seq<char>>,
    groups: Seq<Option<Seq<char>>>,
) -> Option<PartitionInfoView> {
    match dialect {
        Dialect::HM3 => match parsed_usize(group_text(groups, 4)) {
            None => None,
            Some(patch_level) => Some(
                PartitionInfoView {
                    name: Some(group_text(groups, 1)),
                    parent: if named_at(
                        partitions,
                        group_text(groups, 2),
                        partitions.len() as int,
                    ) < partitions.len() {
                        Some(
                            partitions[named_at(
                                partitions,
                                group_text(groups, 2),
                                partitions.len() as int,
                            )].id,
                        )
                    } else {
                        None
                    },
                    id: PartitionIdView {
                        part_type: if group_text(groups, 3) == "addon"@ {
                            PartitionTypeView::Addon
                        } else {
                            PartitionTypeView::Standard
                        },
                        index: partitions.len() as usize,
                    },
                    patch_level,
                    roots: Seq::empty(),
                },
            ),
        },
        _ => {
            let part_type = if (dialect == Dialect::H2016 && group_text(groups, 1) == "dlc"@) || (
            dialect == Dialect::HM2 && group_text(groups, 1) != "chunk"@) {
                PartitionTypeView::Dlc
            } else {
                PartitionTypeView::Standard
            };
            match parsed_usize(group_text(groups, 2)) {
                None => None,
                Some(patch_level) => Some(
                    PartitionInfoView {
                        name,
                        parent: if partitions.len() > 0 {
                            Some(partitions[0].id)
                        } else {
                            None
                        },
                        id: PartitionIdView {
                            part_type,
                            index: count_kind(partitions, part_type, partitions.len() as int) as usize,
                        },
                        patch_level,
                        roots: Seq::empty(),
                    },
                ),
            }
        },
    }
}

/// The language variant of `partition` for the language `code`: a language
/// chunk for a standard partition, a language DLC for any other, with the
/// same number and the partition as its parent.
pub open spec fn language_variant(partition: PartitionInfoView, code: Seq<char>) -> PartitionInfoView {
    PartitionInfoView {
        name: None,
        parent: Some(partition.id),
        id: PartitionIdView {
            part_type: if partition.id.part_type == PartitionTypeView::Standard {
                PartitionTypeView::LanguageStandard(code)
            } else {
                PartitionTypeView::LanguageDlc(code)
            },
            index: partition.id.index,
        },
        patch_level: 0,
        roots: Seq::empty(),
    }
}

/// The language variants of all `partitions`, in order.
pub open spec fn language_variants(partitions: Seq<PartitionInfoView>, code: Seq<char>) -> Seq<
    PartitionInfoView,
> {
    Seq::new(partitions.len(), |i: int| language_variant(partitions[i], code))
}

/// `partitions` with the root that the groups of a root line name added to
/// the last of them; unchanged where the root is no resource id.
pub open spec fn with_root(partitions: Seq<PartitionInfoView>, groups: Seq<Option<Seq<char>>>) -> Seq<
    PartitionInfoView,
>
    recommends
        partitions.len() > 0,
{
    match parsed_uri(group_text(groups, 1) + "."@ + group_text(groups, 2)) {
        Some(uri) => {
            let last = partitions.last();
            partitions.update(
                partitions.len() - 1,
                PartitionInfoView {
                    name: last.name,
                    parent: last.parent,
                    id: last.id,
                    patch_level: last.patch_level,
                    roots: last.roots.push(uri),
                },
            )
        },
        None => partitions,
    }
}

/// The partitions after one more line is read. `upper` and `lower` are
/// the two lines above it. The older dialects look at the line without the
/// white space around it and skip comments. A line is, in this order, one
/// that opens a partition, one that makes language variants (oldest
/// dialect only), one that names a root, or nothing. `None` where the line
/// opens a partition with a patch level that is no number, or, in the
/// newest dialect, names a root before any partition is open.
pub open spec fn after_line(
    dialect: Dialect,
    partitions: Seq<PartitionInfoView>,
    upper: Seq<char>,
    lower: Seq<char>,
    line: Seq<char>,
) -> Option<Seq<PartitionInfoView>> {
    let text = if dialect == Dialect::HM3 {
        line
    } else {
        trimmed(line)
    };
    if dialect != Dialect::HM3 && occurs_at(text, comment_mark(dialect), 0) {
        Some(partitions)
    } else if first_match(partition_pattern(dialect), text) is Some {
        match opened_partition(
            dialect,
            partitions,
            upper,
            lower,
            first_match(partition_pattern(dialect), text)->0,
        ) {
            Some(info) => Some(partitions.push(info)),
            None => None,
        }
    } else if dialect == Dialect::H2016 && first_match(langdlc_pattern(), text) is Some {
        Some(
            partitions + language_variants(
                partitions,
                group_text(first_match(langdlc_pattern(), text)->0, 1),
            ),
        )
    } else if first_match(root_pattern(), text) is Some {
        if partitions.len() == 0 {
            if dialect == Dialect::HM3 {
                None
            } else {
                Some(partitions)
            }
        } else {
            Some(with_root(partitions, first_match(root_pattern(), text)->0))
        }
    } else {
        Some(partitions)
    }
}

/// The partitions after the first `count` lines are read, or `None` where
/// one of them is refused.
pub open spec fn after_lines(dialect: Dialect, lines: Seq<Seq<char>>, count: int) -> Option<
    Seq<PartitionInfoView>,
>
    decreases count,
{
    if count <= 0 {
        Some(Seq::empty())
    } else {
        match after_lines(dialect, lines, count - 1) {
            None => None,
            Some(partitions) => after_line(
                dialect,
                partitions,
                if count >= 3 {
                    lines[count - 3]
                } else {
                    Seq::empty()
                },
                if count >= 2 {
                    lines[count - 2]
                } else {
                    Seq::empty()
                },
                lines[count - 1],
            ),
        }
    }
}

/// The text of a definitions file: decrypted where the file carries the
/// header of an encrypted text file, else its bytes read as UTF-8.
pub enum DefinitionText {
    Text(Seq<char>),
    /// The file is encrypted and does not decrypt.
    Undecryptable,
    /// The file is no UTF-8.
    NoText,
}

pub open spec fn definition_text(data: Seq<u8>) -> DefinitionText {
    if has_header(data) {
        match decrypted_file(data) {
            Decrypted::Text(text) => DefinitionText::Text(text),
            _ => DefinitionText::Undecryptable,
        }
    } else if valid_utf8(data) {
        DefinitionText::Text(decode_utf8(data))
    } else {
        DefinitionText::NoText
    }
}

/// The partitions that a definitions file describes in the given dialect.
pub enum Definitions {
    Partitions(Seq<PartitionInfoView>),
    Undecryptable,
    NoText,
    /// A line of the text is refused.
    Unexpected,
}

pub open spec fn definitions_of(dialect: Dialect, data: Seq<u8>) -> Definitions {
    match definition_text(data) {
        DefinitionText::Undecryptable => Definitions::Undecryptable,
        DefinitionText::NoText => Definitions::NoText,
        DefinitionText::Text(text) => match after_lines(
            dialect,
            lines_of(text),
            lines_of(text).len() as int,
        ) {
            Some(partitions) => Definitions::Partitions(partitions),
            None => Definitions::Unexpected,
        },
    }
}

/// The contents of a sequence of partition infos.
pub open spec fn infos_view(infos: Seq<PartitionInfo>) -> Seq<PartitionInfoView> {
    Seq::new(infos.len(), |i: int| infos[i]@)
}


/// Reads the text of a definitions file.
pub fn read_definition_text(data: &[u8]) -> (r: Result<String, PackageDefinitionError>)
    ensures
        match definition_text(data@) {
            DefinitionText::Text(text) => r matches Ok(s) && s@ == text,
            DefinitionText::Undecryptable => r matches Err(
                PackageDefinitionError::DecryptionError(_),
            ),
            DefinitionText::NoText => r matches Err(PackageDefinitionError::TextEncodingError),
        },
{
    if Xtea::is_encrypted_text_file(data) {
        match Xtea::decrypt_text_file(data) {
            Ok(text) => Ok(text),
            Err(e) => Err(PackageDefinitionError::DecryptionError(e)),
        }
    } else {
        let mut copy: Vec<u8> = Vec::new();
        let mut i: usize = 0;
        while i < data.len()
            invariant
                i <= data@.len(),
                copy@ == data@.take(i as int),
            decreases data@.len() - i,
        {
            copy.push(data[i]);
            i += 1;
            assert(data@.take(i as int) =~= data@.take(i - 1).push(data@[i - 1]));
        }
        assert(data@.take(data@.len() as int) =~= data@);
        match text_from_utf8(copy) {
            Some(text) => Ok(text),
            None => Err(PackageDefinitionError::TextEncodingError),
        }
    }
}

/// The name that the groups of the matches of the name pattern on the two
/// lines above a partition give it.
pub fn partition_name_from(
    upper: &Option<Vec<Option<String>>>,
    lower: &Option<Vec<Option<String>>>,
) -> (r: Option<String>)
    ensures
        match upper {
            Some(groups) => r matches Some(name) && name@ == group_text(groups_view(groups@), 1),
            None => match lower {
                Some(groups) => r matches Some(name) && name@ == group_text(
                    groups_view(groups@),
                    1,
                ),
                None => r is None,
            },
        },
{
    match upper {
        Some(groups) => Some(string_of(&group(groups, 1))),
        None => match lower {
            Some(groups) => Some(string_of(&group(groups, 1))),
            None => None,
        },
    }
}

fn count_of_kind(partitions: &Vec<PartitionInfo>, part_type: &PartitionType) -> (n: usize)
    ensures
        n == count_kind(infos_view(partitions@), part_type@, partitions@.len() as int),
{
    let mut n: usize = 0;
    let mut i: usize = 0;
    while i < partitions.len()
        invariant
            i <= partitions@.len(),
            n <= i,
            n == count_kind(infos_view(partitions@), part_type@, i as int),
        decreases partitions@.len() - i,
    {
        if partitions[i].id.part_type.same_as(part_type) {
            n += 1;
        }
        i += 1;
    }
    n
}

fn find_parent_id(partitions: &Vec<PartitionInfo>, parent_name: &Vec<char>) -> (r: Option<
    PartitionId,
>)
    ensures
        ({
            let at = named_at(infos_view(partitions@), parent_name@, partitions@.len() as int);
            if at < partitions@.len() {
                r matches Some(id) && id@ == partitions@[at]@.id
            } else {
                r is None
            }
        }),
{
    let mut i: usize = 0;
    while i < partitions.len()
        invariant
            i <= partitions@.len(),
            named_at(infos_view(partitions@), parent_name@, i as int) == i,
        decreases partitions@.len() - i,
    {
        let hit = match &partitions[i].name {
            Some(name) => same_chars(&chars_of(name.as_str()), parent_name),
            None => false,
        };
        if hit {
            proof {
                lemma_named_at_stays(
                    infos_view(partitions@),
                    parent_name@,
                    i + 1,
                    partitions@.len() as int,
                );
            }
            return Some(partitions[i].id.duplicate());
        }
        i += 1;
    }
    None
}

/// `named_at` points at a partition or at the end.
proof fn lemma_named_at_range(partitions: Seq<PartitionInfoView>, name: Seq<char>, count: int)
    requires
        0 <= count,
    ensures
        0 <= named_at(partitions, name, count) <= count,
    decreases count,
{
    if count > 0 {
        lemma_named_at_range(partitions, name, count - 1);
    }
}

/// Once a partition of the name is found, later partitions do not matter.
proof fn lemma_named_at_stays(
    partitions: Seq<PartitionInfoView>,
    name: Seq<char>,
    from: int,
    count: int,
)
    requires
        1 <= from <= count,
        named_at(partitions, name, from) == from - 1,
    ensures
        named_at(partitions, name, count) == from - 1,
    decreases count - from,
{
    if from < count {
        lemma_named_at_stays(partitions, name, from, count - 1);
    }
}

/// Makes the partition that a line opens, from the groups of its match and
/// the name that the lines above give it.
pub fn open_partition(
    dialect: Dialect,
    partitions: &Vec<PartitionInfo>,
    name: Option<String>,
    groups: &Vec<Option<String>>,
) -> (r: Option<PartitionInfo>)
    ensures
        match opened_with(
            dialect,
            infos_view(partitions@),
            match name {
                Some(n) => Some(n@),
                None => None,
            },
            groups_view(groups@),
        ) {
            Some(info) => r matches Some(made) && made@ == info,
            None => r is None,
        },
{
    match dialect {
        Dialect::HM3 => {
            let patch_level = match parse_usize(&group(groups, 4)) {
                Some(n) => n,
                None => {
                    return None;
                },
            };
            proof {
                let at = named_at(
                    infos_view(partitions@),
                    group_text(groups_view(groups@), 2),
                    partitions@.len() as int,
                );
                if at < partitions@.len() {
                    lemma_named_at_range(
                        infos_view(partitions@),
                        group_text(groups_view(groups@), 2),
                        partitions@.len() as int,
                    );
                    assert(infos_view(partitions@)[at] == partitions@[at]@);
                }
            }
            let info = PartitionInfo {
                name: Some(string_of(&group(groups, 1))),
                parent: find_parent_id(partitions, &group(groups, 2)),
                id: PartitionId {
                    part_type: if is_text(&group(groups, 3), "addon") {
                        PartitionType::Addon
                    } else {
                        PartitionType::Standard
                    },
                    index: partitions.len(),
                },
                patch_level,
                roots: Vec::new(),
            };
            assert(info@.roots =~= Seq::empty());
            Some(info)
        },
        _ => {
            let kind = group(groups, 1);
            let part_type = match dialect {
                Dialect::H2016 => if is_text(&kind, "dlc") {
                    PartitionType::Dlc
                } else {
                    PartitionType::Standard
                },
                _ => if is_text(&kind, "chunk") {
                    PartitionType::Standard
                } else {
                    PartitionType::Dlc
                },
            };
            let patch_level = match parse_usize(&group(groups, 2)) {
                Some(n) => n,
                None => {
                    return None;
                },
            };
            let index = count_of_kind(partitions, &part_type);
            proof {
                if partitions@.len() > 0 {
                    assert(infos_view(partitions@)[0] == partitions@[0]@);
                }
            }
            let parent = if partitions.len() > 0 {
                Some(partitions[0].id.duplicate())
            } else {
                None
            };
            let info = PartitionInfo {
                name,
                parent,
                id: PartitionId { part_type, index },
                patch_level,
                roots: Vec::new(),
            };
            assert(info@.roots =~= Seq::empty());
            Some(info)
        },
    }
}

/// Adds the language variants of all partitions for the language that the
/// groups of a language line name.
pub fn add_language_variants(partitions: &mut Vec<PartitionInfo>, groups: &Vec<Option<String>>)
    ensures
        infos_view(final(partitions)@) == infos_view(old(partitions)@) + language_variants(
            infos_view(old(partitions)@),
            group_text(groups_view(groups@), 1),
        ),
{
    let code = string_of(&group(groups, 1));
    let count = partitions.len();
    let ghost start = infos_view(partitions@);
    let mut i: usize = 0;
    while i < count
        invariant
            i <= count,
            count == start.len(),
            partitions@.len() == count + i,
            code@ == group_text(groups_view(groups@), 1),
            infos_view(partitions@) == start + language_variants(start, code@).take(i as int),
        decreases count - i,
    {
        let ghost before = infos_view(partitions@);
        assert(before[i as int] == start[i as int]);
        let partition = &partitions[i];
        let variant = PartitionInfo {
            name: None,
            parent: Some(partition.id.duplicate()),
            id: PartitionId {
                part_type: match partition.id.part_type {
                    PartitionType::Standard => PartitionType::LanguageStandard(code.clone()),
                    _ => PartitionType::LanguageDlc(code.clone()),
                },
                index: partition.id.index,
            },
            patch_level: 0,
            roots: Vec::new(),
        };
        assert(variant@.roots =~= Seq::empty());
        assert(variant@ == language_variant(start[i as int], code@));
        partitions.push(variant);
        i += 1;
        assert(infos_view(partitions@) =~= before.push(variant@));
        assert(language_variants(start, code@).take(i as int) =~= language_variants(
            start,
            code@,
        ).take(i - 1).push(variant@));
        assert(infos_view(partitions@) =~= start + language_variants(start, code@).take(i as int));
    }
    assert(language_variants(start, code@).take(count as int) =~= language_variants(start, code@));
}

/// Adds the root that the groups of a root line name to the last
/// partition, where it is a resource id.
pub fn add_root(partitions: &mut Vec<PartitionInfo>, groups: &Vec<Option<String>>)
    requires
        old(partitions)@.len() > 0,
    ensures
        infos_view(final(partitions)@) == with_root(
            infos_view(old(partitions)@),
            groups_view(groups@),
        ),
{
    let mut text = group(groups, 1);
    push_str(&mut text, ".");
    push_all(&mut text, &group(groups, 2));
    let ghost start = infos_view(partitions@);
    match ResourceID::parse(string_of(&text).as_str()) {
        Ok(rid) => {
            let mut last = partitions.pop().unwrap();
            let ghost lead = infos_view(partitions@);
            let ghost was = last@;
            last.add_root(rid);
            partitions.push(last);
            assert(infos_view(partitions@) =~= with_root(start, groups_view(groups@)));
        },
        Err(_) => {},
    }
}

/// Reads one more line of a definitions file. Returns whether the line is
/// accepted; the partitions are as they were where it is not.
pub fn apply_line(
    dialect: Dialect,
    partitions: &mut Vec<PartitionInfo>,
    upper: &Vec<char>,
    lower: &Vec<char>,
    line: &Vec<char>,
) -> (accepted: bool)
    ensures
        match after_line(dialect, infos_view(old(partitions)@), upper@, lower@, line@) {
            Some(after) => accepted && infos_view(final(partitions)@) == after,
            None => !accepted && final(partitions)@ == old(partitions)@,
        },
{
    let line_text = string_of(line);
    let text = match dialect {
        Dialect::HM3 => line_text,
        _ => trim(line_text.as_str()),
    };
    let is_comment = match dialect {
        Dialect::H2016 => starts_with(&chars_of(text.as_str()), "##"),
        Dialect::HM2 => starts_with(&chars_of(text.as_str()), "//"),
        Dialect::HM3 => false,
    };
    if is_comment {
        return true;
    }
    let opening = match dialect {
        Dialect::H2016 => captures("#([A-z]+) patchlevel=([0-9]+)", text.as_str()),
        Dialect::HM2 => captures("@([A-z]+) patchlevel=([0-9]+)", text.as_str()),
        Dialect::HM3 => captures(
            "@partition name=(.+?) parent=(.+?) type=(.+?) patchlevel=(.\\d*)",
            text.as_str(),
        ),
    };
    match opening {
        Some(groups) => {
            let name = match dialect {
                Dialect::H2016 => partition_name_from(
                    &captures("## --- +(?:DLC|Chunk )\\d{2} (.*)", string_of(upper).as_str()),
                    &captures("## --- +(?:DLC|Chunk )\\d{2} (.*)", string_of(lower).as_str()),
                ),
                Dialect::HM2 => partition_name_from(
                    &captures("// --- (?:DLC|Chunk) \\d{2} (.*)", string_of(upper).as_str()),
                    &captures("// --- (?:DLC|Chunk) \\d{2} (.*)", string_of(lower).as_str()),
                ),
                Dialect::HM3 => None,
            };
            match open_partition(dialect, partitions, name, &groups) {
                Some(info) => {
                    let ghost before = infos_view(partitions@);
                    partitions.push(info);
                    assert(infos_view(partitions@) =~= before.push(info@));
                    return true;
                },
                None => {
                    return false;
                },
            }
        },
        None => {},
    }
    match dialect {
        Dialect::H2016 => {
            match captures("#langdlc ([A-z]+)", text.as_str()) {
                Some(groups) => {
                    add_language_variants(partitions, &groups);
                    return true;
                },
                None => {},
            }
        },
        _ => {},
    }
    match captures("(\\[[a-z]+:/.+?]).([a-z]+)", text.as_str()) {
        Some(groups) => {
            if partitions.len() == 0 {
                assert(infos_view(partitions@) =~= Seq::empty());
                match dialect {
                    Dialect::HM3 => false,
                    _ => true,
                }
            } else {
                add_root(partitions, &groups);
                true
            }
        },
        None => true,
    }
}

/// Parses a definitions file in the given dialect.
///
/// The file is decrypted where it is encrypted, split into lines, and read
/// line by line. A line that is refused gives `UnexpectedFormat`.
pub fn parse_definitions(dialect: Dialect, data: &[u8]) -> (r: Result<
    Vec<PartitionInfo>,
    PackageDefinitionError,
>)
    ensures
        match definitions_of(dialect, data@) {
            Definitions::Partitions(partitions) => r matches Ok(infos) && infos_view(infos@)
                == partitions,
            Definitions::Undecryptable => r matches Err(
                PackageDefinitionError::DecryptionError(_),
            ),
            Definitions::NoText => r matches Err(PackageDefinitionError::TextEncodingError),
            Definitions::Unexpected => r matches Err(PackageDefinitionError::UnexpectedFormat(_)),
        },
{
    let text = match read_definition_text(data) {
        Ok(text) => text,
        Err(e) => {
            return Err(e);
        },
    };
    let lines = split_lines(&chars_of(text.as_str()));
    let mut partitions: Vec<PartitionInfo> = Vec::new();
    let empty: Vec<char> = Vec::new();
    let mut i: usize = 0;
    assert(infos_view(partitions@) =~= Seq::empty());
    while i < lines.len()
        invariant
            i <= lines@.len(),
            empty@.len() == 0,
            rows(lines@) == lines_of(text@),
            definition_text(data@) == DefinitionText::Text(text@),
            after_lines(dialect, rows(lines@), i as int) == Some(infos_view(partitions@)),
        decreases lines@.len() - i,
    {
        let upper = if i >= 2 {
            &lines[i - 2]
        } else {
            &empty
        };
        let lower = if i >= 1 {
            &lines[i - 1]
        } else {
            &empty
        };
        assert(upper@ =~= if i + 1 >= 3 {
            rows(lines@)[i + 1 - 3]
        } else {
            Seq::empty()
        });
        assert(lower@ =~= if i + 1 >= 2 {
            rows(lines@)[i + 1 - 2]
        } else {
            Seq::empty()
        });
        assert(lines@[i as int]@ == rows(lines@)[i as int]);
        if !apply_line(dialect, &mut partitions, upper, lower, &lines[i]) {
            proof {
                lemma_after_lines_fails(dialect, rows(lines@), i + 1, lines@.len() as int);
            }
            return Err(
                PackageDefinitionError::UnexpectedFormat(
                    "a line of the package definitions is refused".to_string(),
                ),
            );
        }
        i += 1;
    }
    Ok(partitions)
}

/// Once a line is refused, so is the file.
proof fn lemma_after_lines_fails(dialect: Dialect, lines: Seq<Seq<char>>, from: int, count: int)
    requires
        0 <= from <= count,
        after_lines(dialect, lines, from) is None,
    ensures
        after_lines(dialect, lines, count) is None,
    decreases count - from,
{
    if from < count {
        lemma_after_lines_fails(dialect, lines, from, count - 1);
    }
}


/// A parser of one dialect of the partition definitions.
pub trait PackageDefinitionParser {
    fn parse(data: &[u8]) -> Result<Vec<PartitionInfo>, PackageDefinitionError>;
}

/// Partition definitions, by the game that wrote them, or already parsed.
#[derive(Debug)]
pub enum PackageDefinitionSource {
    HM3(Vec<u8>),
    HM2(Vec<u8>),
    HM2016(Vec<u8>),
    Custom(Vec<PartitionInfo>),
}

impl PackageDefinitionSource {
    /// The definitions of the game `woa_version`, from the bytes of its file.
    pub fn from_version(woa_version: WoaVersion, data: Vec<u8>) -> (r: Self)
        ensures
            match woa_version {
                WoaVersion::HM2016 => r matches PackageDefinitionSource::HM2016(d) && d@ == data@,
                WoaVersion::HM2 => r matches PackageDefinitionSource::HM2(d) && d@ == data@,
                WoaVersion::HM3 => r matches PackageDefinitionSource::HM3(d) && d@ == data@,
            },
    {
        match woa_version {
            WoaVersion::HM2016 => PackageDefinitionSource::HM2016(data),
            WoaVersion::HM2 => PackageDefinitionSource::HM2(data),
            WoaVersion::HM3 => PackageDefinitionSource::HM3(data),
        }
    }

    /// The partitions that the definitions describe.
    pub open spec fn definitions(&self) -> Definitions {
        match self {
            PackageDefinitionSource::Custom(infos) => Definitions::Partitions(infos_view(infos@)),
            PackageDefinitionSource::HM3(data) => definitions_of(Dialect::HM3, data@),
            PackageDefinitionSource::HM2(data) => definitions_of(Dialect::HM2, data@),
            PackageDefinitionSource::HM2016(data) => definitions_of(Dialect::H2016, data@),
        }
    }

    /// Reads the partitions: parsed in the dialect of the game, or copied
    /// where they are given.
    pub fn read(&self) -> (r: Result<Vec<PartitionInfo>, PackageDefinitionError>)
        ensures
            match self.definitions() {
                Definitions::Partitions(partitions) => r matches Ok(infos) && infos_view(infos@)
                    == partitions,
                Definitions::Undecryptable => r matches Err(
                    PackageDefinitionError::DecryptionError(_),
                ),
                Definitions::NoText => r matches Err(PackageDefinitionError::TextEncodingError),
                Definitions::Unexpected => r matches Err(
                    PackageDefinitionError::UnexpectedFormat(_),
                ),
            },
    {
        match self {
            PackageDefinitionSource::Custom(vec) => {
                let mut copy: Vec<PartitionInfo> = Vec::new();
                let mut i: usize = 0;
                while i < vec.len()
                    invariant
                        i <= vec@.len(),
                        copy@.len() == i,
                        forall|k: int| 0 <= k < i ==> (#[trigger] copy@[k])@ == vec@[k]@,
                    decreases vec@.len() - i,
                {
                    copy.push(vec[i].duplicate());
                    i += 1;
                }
                assert(infos_view(copy@) =~= infos_view(vec@));
                Ok(copy)
            },
            PackageDefinitionSource::HM3(vec) => parse_definitions(Dialect::HM3, vec.as_slice()),
            PackageDefinitionSource::HM2(vec) => parse_definitions(Dialect::HM2, vec.as_slice()),
            PackageDefinitionSource::HM2016(vec) => parse_definitions(
                Dialect::H2016,
                vec.as_slice(),
            ),
        }
    }
}


/// Where the files of a game lie.
#[derive(Debug)]
pub struct GamePaths {
    pub project_path: String,
    pub runtime_path: String,
    pub package_definition_path: String,
}

#[derive(Debug)]
pub enum GameDiscoveryError {
    /// No thumbs.dat file found.
    NoThumbsFile,
    /// No RUNTIME_PATH found in thumbs.dat.
    NoRuntimePath,
    /// No PROJECT_PATH found in thumbs.dat.
    NoProjectPath,
    /// Failed to parse the thumbs.dat file.
    FailedToParseThumbsFile(IniFileError),
}

/// `Path::join` of the standard library. How paths join depends on the
/// platform, so nothing is stated of the result.
#[verifier::external_body]
fn join_path(base: &str, tail: &str) -> (r: String) {
    std::path::Path::new(base).join(tail).to_string_lossy().into_owned()
}

impl GamePaths {
    /// Works out the game's paths from its retail directory and its
    /// `thumbs.dat`, which must name `PROJECT_PATH` and `RUNTIME_PATH` in
    /// its section `application`. The paths are joined as the platform
    /// joins them.
    ///
    /// # Arguments
    /// - `retail_directory` - The path to the game's retail directory.
    /// - `thumbs` - The configuration read from `thumbs.dat` in that directory.
    pub fn from_retail_directory(retail_directory: &str, thumbs: &IniFileSystem) -> (r: Result<
        Self,
        GameDiscoveryError,
    >)
        ensures
            ({
                let sections = thumbs.root.sections@;
                let at = section_at(sections, "application"@, sections.len() as int);
                if at >= sections.len() || option_value(
                    pairs(sections[at].options@),
                    "PROJECT_PATH"@,
                ) is None {
                    r matches Err(GameDiscoveryError::NoProjectPath)
                } else if option_value(pairs(sections[at].options@), "RUNTIME_PATH"@) is None {
                    r matches Err(GameDiscoveryError::NoRuntimePath)
                } else {
                    r is Ok
                }
            }),
    {
        let root = thumbs.root();
        let app_options = match root.find_section("application") {
            Some(at) => &root.sections[at],
            None => {
                return Err(GameDiscoveryError::NoProjectPath);
            },
        };
        let project_path = match app_options.get("PROJECT_PATH") {
            Some(p) => p,
            None => {
                return Err(GameDiscoveryError::NoProjectPath);
            },
        };
        let relative_runtime_path = match app_options.get("RUNTIME_PATH") {
            Some(p) => p,
            None => {
                return Err(GameDiscoveryError::NoRuntimePath);
            },
        };
        let project = join_path(retail_directory, project_path.as_str());
        let runtime_path = join_path(project.as_str(), relative_runtime_path.as_str());
        let package_definition_path = join_path(runtime_path.as_str(), "packagedefinition.txt");
        Ok(Self { project_path: project, runtime_path, package_definition_path })
    }
}

impl std::str::FromStr for PartitionId {
    type Err = PartitionIdError;

    /// Reads a partition id from its text, as `PartitionId::parse` does.
    fn from_str(id: &str) -> (r: Result<Self, PartitionIdError>)
        ensures
            match first_match(partition_id_pattern(), id@) {
                Some(groups) => match partition_id_from(groups) {
                    Some(made) => r matches Ok(found) && found@ == made,
                    None => r matches Err(PartitionIdError::ParsingError(_)),
                },
                None => r matches Err(PartitionIdError::ParsingError(_)),
            },
    {
        PartitionId::parse(id)
    }
}

} // verus!
