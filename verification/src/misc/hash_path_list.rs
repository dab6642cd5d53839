//! A table from the hashes of resources back to their paths.
//!
//! ```txt
//! #comments will be ignored!
//! 00546F0BD4E80484.GFXI,[assembly:/any/path/here/file.jpg].pc_gfx
//! 0023456789ABCDEF.WWEM, this_is_no_resource_id
//! 003456789ABCDEF0.FXAS,[assembly:/lorem/ipsum/dolor_sit/amet/ai/consectetur/adipisicing.animset].pc_animset
//! ```

use crate::misc::resource_id::{parsed_uri, well_shaped, ResourceID};
use crate::resource::runtime_resource_id::collapsed;
use crate::text::{
    chars_of,
    find_char,
    first_index_of,
    lines_of,
    parse_u64,
    parsed_u64,
    rows,
    slice_of,
    split_lines,
    string_of,
};
use std::collections::HashMap;
use vstd::prelude::*;

verus! {

broadcast use vstd::std_specs::hash::group_hash_axioms;

#[derive(Debug)]
pub enum PathListError {
    /// The file could not be read.
    IoError(String),
    /// Invalid RuntimeResourceID entry.
    InvalidRuntimeResourceID,
}

/// A rainbow table of hashed paths with associated paths.
pub struct PathList {
    pub entries: HashMap<u64, Option<ResourceID>>,
}

/// The hexadecimal number of a line of the table: on a line with a `,`,
/// what stands before the `,`, up to its first `.`; on a line without, the
/// whole line.
pub open spec fn hash_text(line: Seq<char>) -> Seq<char> {
    let comma = first_index_of(line, ',');
    if comma < line.len() {
        let head = line.take(comma);
        head.take(first_index_of(head, '.'))
    } else {
        line
    }
}

/// The entry that a line of the table makes: the identifier that its
/// hexadecimal number stands for, and the resource id behind its first `,`
/// where that is one and well shaped. `None` for a comment and for a line
/// whose number does not parse.
pub open spec fn path_entry(line: Seq<char>) -> Option<(u64, Option<Seq<char>>)> {
    if line.len() > 0 && line[0] == '#' {
        None
    } else {
        let comma = first_index_of(line, ',');
        let hash = hash_text(line);
        match parsed_u64(hash, 16) {
            None => None,
            Some(id) => Some(
                (
                    collapsed(id),
                    if comma < line.len() {
                        match parsed_uri(line.skip(comma + 1)) {
                            Some(uri) => if well_shaped(uri) {
                                Some(uri)
                            } else {
                                None
                            },
                            None => None,
                        }
                    } else {
                        None
                    },
                ),
            ),
        }
    }
}

/// The table that the first `count` lines make; a later line replaces an
/// earlier one with the same identifier.
pub open spec fn path_table(lines: Seq<Seq<char>>, count: int) -> Map<u64, Option<Seq<char>>>
    decreases count,
{
    if count <= 0 {
        Map::empty()
    } else {
        match path_entry(lines[count - 1]) {
            Some((id, path)) => path_table(lines, count - 1).insert(id, path),
            None => path_table(lines, count - 1),
        }
    }
}

/// The paths of a table, as texts.
pub open spec fn table_view(entries: Map<u64, Option<ResourceID>>) -> Map<u64, Option<Seq<char>>> {
    Map::new(
        |id: u64| entries.dom().contains(id),
        |id: u64|
            match entries[id] {
                Some(rid) => Some(rid@),
                None => None,
            },
    )
}

impl PathList {
    /// Creates a new empty PathList.
    pub fn new() -> (r: Self)
        ensures
            r.entries@ == Map::<u64, Option<ResourceID>>::empty(),
    {
        Self { entries: HashMap::new() }
    }

    /// Reads one line of the table.
    pub fn parse_line(line: &Vec<char>) -> (r: Option<(u64, Option<ResourceID>)>)
        ensures
            match path_entry(line@) {
                Some((id, path)) => r matches Some((found, rid)) && found == id && match path {
                    Some(uri) => rid matches Some(x) && x@ == uri,
                    None => rid is None,
                },
                None => r is None,
            },
    {
        if line.len() > 0 && line[0] == '#' {
            return None;
        }
        let comma = find_char(line, ',');
        let hash = match comma {
            Some(c) => {
                let head = slice_of(line, 0, c);
                assert(head@ =~= line@.take(first_index_of(line@, ',')));
                let hash = match find_char(&head, '.') {
                    Some(d) => slice_of(&head, 0, d),
                    None => slice_of(&head, 0, head.len()),
                };
                assert(hash@ =~= head@.take(first_index_of(head@, '.')));
                hash
            },
            None => {
                let whole = slice_of(line, 0, line.len());
                assert(whole@ =~= line@);
                whole
            },
        };
        assert(hash@ == hash_text(line@));
        let id = match parse_u64(&hash, 16) {
            Some(id) => id,
            None => {
                return None;
            },
        };
        let key = if id < 0x00FF_FFFF_FFFF_FFFF {
            id
        } else {
            0x00FF_FFFF_FFFF_FFFF
        };
        let rid = match comma {
            Some(c) => {
                let path = slice_of(line, c + 1, line.len());
                assert(path@ =~= line@.skip(c + 1));
                match ResourceID::parse(string_of(&path).as_str()) {
                    Ok(rid) => {
                        if rid.is_valid() {
                            Some(rid)
                        } else {
                            None
                        }
                    },
                    Err(_) => None,
                }
            },
            None => None,
        };
        Some((key, rid))
    }

    /// Parses the text of a table into the PathList, in place of what it held.
    ///
    /// # Arguments
    ///
    /// * `content` - The text of the table.
    pub fn parse_into(&mut self, content: &str)
        ensures
            table_view(final(self).entries@) == path_table(
                lines_of(content@),
                lines_of(content@).len() as int,
            ),
    {
        let lines = split_lines(&chars_of(content));
        let mut entries: HashMap<u64, Option<ResourceID>> = HashMap::new();
        let mut i: usize = 0;
        assert(table_view(entries@) =~= path_table(rows(lines@), 0));
        while i < lines.len()
            invariant
                i <= lines@.len(),
                table_view(entries@) == path_table(rows(lines@), i as int),
            decreases lines@.len() - i,
        {
            assert(lines@[i as int]@ == rows(lines@)[i as int]);
            let ghost before = table_view(entries@);
            match Self::parse_line(&lines[i]) {
                Some((id, rid)) => {
                    let ghost path = if rid is Some {
                        Some(rid->0@)
                    } else {
                        None
                    };
                    entries.insert(id, rid);
                    assert(table_view(entries@) =~= before.insert(id, path));
                },
                None => {},
            }
            i += 1;
        }
        self.entries = entries;
    }

    /// The path stored under `key`, as text, where there is one.
    pub fn get_path(&self, key: u64) -> (r: Option<&String>)
        ensures
            match r {
                Some(path) => self.entries@.dom().contains(key) && (
                self.entries@[key] matches Some(rid) && *path == rid.uri),
                None => !self.entries@.dom().contains(key) || self.entries@[key] is None,
            },
    {
        match self.get_resource_id(key) {
            Some(rid) => Some(&rid.uri),
            None => None,
        }
    }

    /// The path of the resource `key`, where the table has it.
    pub fn get_resource_id(&self, key: u64) -> (r: Option<&ResourceID>)
        ensures
            match r {
                Some(rid) => self.entries@.dom().contains(key) && self.entries@[key] == Some(*rid),
                None => !self.entries@.dom().contains(key) || self.entries@[key] is None,
            },
    {
        match self.entries.get(&key) {
            Some(value) => match value {
                Some(path) => Some(path),
                None => None,
            },
            None => None,
        }
    }
}

} // verus!
