//! Path identifier for a Glacier Resource file.
//!
//! A ResourceID follows the format
//! `[protocol:path/to/file.extension(parameters).platform_extension]`, where
//! the parameters are optional, and may be nested in another:
//!
//! ```txt
//! [assembly:/images/sprites/player.jpg](asspritesheet).pc_jpeg
//! [[assembly:/images/sprites/player.jpg](asspritesheet).pc_jpeg].pc_png
//! ```
//!
//! The identifier is kept without the platform tag `pc_`; `resource_path`
//! puts it back.

use crate::pattern::{captures, first_match, group, groups_view};
use crate::resource::runtime_resource_id::RuntimeResourceID;
use crate::text::{
    ascii_lowercase,
    chars_of,
    contains_sub,
    count_char,
    count_of,
    find_char,
    first_index_of,
    has_sub,
    last_index_of,
    lemma_first_index_of,
    lemma_last_index_of,
    matches_at,
    occurs_at,
    push_all,
    push_str,
    rfind_char,
    slice_of,
    string_of,
    to_ascii_lower,
    utf8_len,
    utf8_len_of,
};
use vstd::prelude::*;

verus! {

#[derive(Debug)]
pub enum ResourceIDError {
    /// The text has not the shape of a resource id.
    InvalidFormat(String),
}

#[derive(Debug, Hash, PartialEq, Eq)]
pub struct ResourceID {
    pub uri: String,
}

impl View for ResourceID {
    type V = Seq<char>;

    open spec fn view(&self) -> Seq<char> {
        self.uri@
    }
}

impl Default for ResourceID {
    fn default() -> (r: Self)
        ensures
            r@ == Seq::<char>::empty(),
    {
        ResourceID { uri: String::new() }
    }
}

impl Clone for ResourceID {
    fn clone(&self) -> (r: Self)
        ensures
            r@ == self@,
    {
        ResourceID { uri: self.uri.clone() }
    }
}

/// Whether `c` survives parsing: it is no control character, that is,
/// it stands above `0x1F`.
pub open spec fn is_kept(c: char) -> bool {
    (c as u32) > 0x1F
}

/// `s` without the characters that are not kept.
pub open spec fn printable(s: Seq<char>) -> Seq<char>
    decreases s.len(),
{
    if s.len() == 0 {
        Seq::empty()
    } else if is_kept(s.last()) {
        printable(s.drop_last()).push(s.last())
    } else {
        printable(s.drop_last())
    }
}

/// Whether `s` has the shape of a resource id: it starts with `[`, holds a
/// `]`, and holds neither `unknown` nor `*`.
pub open spec fn well_shaped(s: Seq<char>) -> bool {
    &&& s.len() > 0 && s[0] == '['
    &&& !has_sub(s, "unknown"@)
    &&& !s.contains('*')
    &&& s.contains(']')
}

/// Whether the platform tag `pc_` stands at `at`, right behind a `.`.
pub open spec fn tag_at(s: Seq<char>, at: int) -> bool {
    at >= 1 && at + 3 <= s.len() && s[at - 1] == '.' && s[at] == 'p' && s[at + 1] == 'c' && s[at
        + 2] == '_'
}

/// Whether the character at `i` belongs to a platform tag.
pub open spec fn in_tag(s: Seq<char>, i: int) -> bool {
    tag_at(s, i) || tag_at(s, i - 1) || tag_at(s, i - 2)
}

/// The first `k` characters of `s` without the platform tags among them.
pub open spec fn untagged_upto(s: Seq<char>, k: int) -> Seq<char>
    decreases k,
{
    if k <= 0 {
        Seq::empty()
    } else if in_tag(s, k - 1) {
        untagged_upto(s, k - 1)
    } else {
        untagged_upto(s, k - 1).push(s[k - 1])
    }
}

/// `s` without every platform tag `pc_` that follows a `.`.
pub open spec fn untagged(s: Seq<char>) -> Seq<char> {
    untagged_upto(s, s.len() as int)
}

/// The identifier that `source` spells: its characters in lower case,
/// without those that are not kept and without the platform tags; `None`
/// where what is left before the tags go is not well shaped.
pub open spec fn parsed_uri(source: Seq<char>) -> Option<Seq<char>> {
    let text = printable(to_ascii_lower(source));
    if well_shaped(text) {
        Some(untagged(text))
    } else {
        None
    }
}

/// `uri` with the platform tag `pc_` behind its last `.`.
pub open spec fn with_platform(uri: Seq<char>) -> Seq<char> {
    let dot = last_index_of(uri, '.');
    uri.take(dot + 1) + "pc_"@ + uri.skip(dot + 1)
}

/// The identifier derived from `parent`: the parent in brackets, the
/// parameters in parentheses where there are any, a `.` and the extension.
pub open spec fn derived_uri(parent: Seq<char>, parameters: Seq<char>, extension: Seq<char>) -> Seq<
    char,
> {
    "["@ + parent + "]"@ + (if parameters.len() > 0 {
        "("@ + parameters + ")"@
    } else {
        Seq::empty()
    }) + "."@ + extension
}

/// The place of the last `pat` in `s` at or before `k`, or -1 where there is none.
pub open spec fn last_sub_upto(s: Seq<char>, pat: Seq<char>, k: int) -> int
    decreases k + 1,
{
    if k < 0 {
        -1
    } else if occurs_at(s, pat, k) {
        k
    } else {
        last_sub_upto(s, pat, k - 1)
    }
}

/// `uri` with one more parameter. Where it has none yet, `(param)` goes
/// before its last `.`; where it has some, `,param` goes before its last
/// `).`. An identifier without such a place stays as it is.
pub open spec fn with_parameter(uri: Seq<char>, has_parameters: bool, param: Seq<char>) -> Seq<char> {
    if !has_parameters {
        let dot = last_index_of(uri, '.');
        if dot < 0 {
            uri
        } else {
            uri.take(dot) + "("@ + param + ")"@ + uri.skip(dot)
        }
    } else {
        let at = last_sub_upto(uri, ")."@, uri.len() as int);
        if at < 0 {
            uri
        } else {
            uri.take(at) + ","@ + param + uri.skip(at)
        }
    }
}

/// The pattern that finds the parameters of an identifier.
pub open spec fn parameters_pattern() -> Seq<char> {
    "(.*)\\((.*)\\)\\.(.*)"@
}

/// The pattern that finds the identifier nested one level down.
pub open spec fn inner_pattern() -> Seq<char> {
    "\\[(.*?)\\][^]]*$"@
}

/// The pieces of `s` between its `sep`, from the one before `upto` back to
/// the start: as many pieces as there are `sep`, and one more.
pub open spec fn pieces_upto(s: Seq<char>, sep: char, upto: int) -> Seq<Seq<char>>
    decreases upto,
{
    if upto <= 0 {
        seq![Seq::empty()]
    } else if s[upto - 1] == sep {
        pieces_upto(s, sep, upto - 1).push(Seq::empty())
    } else {
        let before = pieces_upto(s, sep, upto - 1);
        before.drop_last().push(before.last().push(s[upto - 1]))
    }
}

/// The pieces of `s` between its `sep`.
pub open spec fn pieces(s: Seq<char>, sep: char) -> Seq<Seq<char>> {
    pieces_upto(s, sep, s.len() as int)
}

/// The texts that a sequence of strings holds.
pub open spec fn texts(v: Seq<String>) -> Seq<Seq<char>> {
    Seq::new(v.len(), |i: int| v[i]@)
}

/// `s` without every `c`.
pub open spec fn without(s: Seq<char>, c: char) -> Seq<char>
    decreases s.len(),
{
    if s.len() == 0 {
        Seq::empty()
    } else if s.last() == c {
        without(s.drop_last(), c)
    } else {
        without(s.drop_last(), c).push(s.last())
    }
}

/// The first `n` characters of `s`, or all of `s` where it has fewer.
pub open spec fn first_chars(s: Seq<char>, n: int) -> Seq<char> {
    if n < s.len() {
        s.take(n)
    } else {
        s
    }
}

/// The protocol of `uri`: what stands before its first `:`, counted in
/// bytes and taken in characters, without any `[`. `None` where there is no `:`.
pub open spec fn protocol_of(uri: Seq<char>) -> Option<Seq<char>> {
    let colon = first_index_of(uri, ':');
    if colon == uri.len() {
        None
    } else {
        Some(without(first_chars(uri, utf8_len(uri.take(colon))), '['))
    }
}

/// The path of `uri`: what stands between its first character and its last
/// `/`, counted in bytes and taken in characters, where that holds no `.`.
pub open spec fn path_of(uri: Seq<char>) -> Option<Seq<char>> {
    let rest = if uri.len() > 0 {
        uri.skip(1)
    } else {
        Seq::empty()
    };
    let slash = last_index_of(rest, '/');
    if slash < 0 {
        None
    } else {
        let p = first_chars(rest, utf8_len(rest.take(slash)));
        if p.contains('.') {
            None
        } else {
            Some(p)
        }
    }
}

/// The text in which the innermost identifier of `uri` is looked for: `uri`
/// up to its second `]`, or all of it where it has one `]` only, without
/// one leading character for each `[` but one. `None` where `uri` has fewer
/// than two `[`, or no `]`.
pub open spec fn innermost_text(uri: Seq<char>) -> Option<Seq<char>> {
    let open_count = count_of(uri, '[');
    let first = first_index_of(uri, ']');
    if open_count < 2 || first == uri.len() {
        None
    } else {
        let second = first + 1 + first_index_of(uri.skip(first + 1), ']');
        let upto = uri.take(second);
        if open_count - 1 <= upto.len() {
            Some(upto.skip(open_count - 1))
        } else {
            Some(Seq::empty())
        }
    }
}

fn is_well_shaped(s: &Vec<char>) -> (r: bool)
    ensures
        r == well_shaped(s@),
{
    if s.len() == 0 || s[0] != '[' {
        return false;
    }
    if contains_sub(s, &chars_of("unknown")) {
        return false;
    }
    proof {
        lemma_first_index_of(s@, '*');
        lemma_first_index_of(s@, ']');
    }
    let star = find_char(s, '*');
    let close = find_char(s, ']');
    match star {
        Some(i) => {
            assert(s@[i as int] == '*');
            return false;
        },
        None => {},
    }
    match close {
        Some(i) => {
            assert(s@[i as int] == ']');
            true
        },
        None => false,
    }
}

fn keep_printable(s: &Vec<char>) -> (r: Vec<char>)
    ensures
        r@ == printable(s@),
{
    let mut r: Vec<char> = Vec::new();
    let mut i: usize = 0;
    while i < s.len()
        invariant
            i <= s@.len(),
            r@ == printable(s@.take(i as int)),
        decreases s@.len() - i,
    {
        assert(s@.take(i + 1).drop_last() =~= s@.take(i as int));
        if (s[i] as u32) > 0x1F {
            r.push(s[i]);
        }
        i += 1;
    }
    assert(s@.take(s@.len() as int) =~= s@);
    r
}

fn is_tag_at(s: &Vec<char>, at: usize) -> (r: bool)
    ensures
        r == tag_at(s@, at as int),
{
    at >= 1 && s.len() >= 3 && at <= s.len() - 3 && s[at - 1] == '.' && s[at] == 'p' && s[at + 1]
        == 'c' && s[at + 2] == '_'
}

fn strip_tags(s: &Vec<char>) -> (r: Vec<char>)
    ensures
        r@ == untagged(s@),
{
    let mut r: Vec<char> = Vec::new();
    let mut i: usize = 0;
    while i < s.len()
        invariant
            i <= s@.len(),
            r@ == untagged_upto(s@, i as int),
        decreases s@.len() - i,
    {
        let inside = is_tag_at(s, i) || (i >= 1 && is_tag_at(s, i - 1)) || (i >= 2 && is_tag_at(
            s,
            i - 2,
        ));
        if !inside {
            r.push(s[i]);
        }
        i += 1;
    }
    r
}

fn remove_char(s: &Vec<char>, c: char) -> (r: Vec<char>)
    ensures
        r@ == without(s@, c),
{
    let mut r: Vec<char> = Vec::new();
    let mut i: usize = 0;
    while i < s.len()
        invariant
            i <= s@.len(),
            r@ == without(s@.take(i as int), c),
        decreases s@.len() - i,
    {
        assert(s@.take(i + 1).drop_last() =~= s@.take(i as int));
        if s[i] != c {
            r.push(s[i]);
        }
        i += 1;
    }
    assert(s@.take(s@.len() as int) =~= s@);
    r
}

/// Splits `s` at every `sep`.
pub fn split_on(s: &Vec<char>, sep: char) -> (r: Vec<String>)
    ensures
        texts(r@) == pieces(s@, sep),
{
    let mut done: Vec<String> = Vec::new();
    let mut current: Vec<char> = Vec::new();
    let mut i: usize = 0;
    assert(texts(done@).push(current@) =~= pieces_upto(s@, sep, 0));
    while i < s.len()
        invariant
            i <= s@.len(),
            texts(done@).push(current@) == pieces_upto(s@, sep, i as int),
        decreases s@.len() - i,
    {
        let ghost before = texts(done@).push(current@);
        if s[i] == sep {
            let ghost old_done = texts(done@);
            done.push(string_of(&current));
            current = Vec::new();
            assert(texts(done@) =~= before);
        } else {
            current.push(s[i]);
            assert(texts(done@).push(current@) =~= before.drop_last().push(
                before.last().push(s@[i as int]),
            ));
        }
        i += 1;
    }
    let ghost before = texts(done@).push(current@);
    done.push(string_of(&current));
    assert(texts(done@) =~= before);
    done
}


fn rfind_sub(s: &Vec<char>, pat: &Vec<char>) -> (r: Option<usize>)
    ensures
        match r {
            Some(i) => i == last_sub_upto(s@, pat@, s@.len() as int) && i <= s@.len(),
            None => last_sub_upto(s@, pat@, s@.len() as int) < 0,
        },
{
    let mut k: usize = s.len();
    loop
        invariant
            k <= s@.len(),
            last_sub_upto(s@, pat@, s@.len() as int) == last_sub_upto(s@, pat@, k as int),
        decreases k,
    {
        if matches_at(s, pat, k) {
            return Some(k);
        }
        if k == 0 {
            assert(last_sub_upto(s@, pat@, -1) == -1);
            return None;
        }
        k -= 1;
    }
}

impl ResourceID {
    /// A copy of the identifier.
    pub fn duplicate(&self) -> (r: ResourceID)
        ensures
            r@ == self@,
    {
        ResourceID { uri: self.uri.clone() }
    }

    /// An identifier that names nothing.
    pub fn new() -> (r: Self)
        ensures
            r@ == Seq::<char>::empty(),
    {
        ResourceID { uri: String::new() }
    }

    /// Reads an identifier from text: the text goes to lower case, control
    /// characters go, the shape is tested, and the platform tag `pc_` goes
    /// wherever it follows a `.`. A text of another shape gives
    /// `InvalidFormat`.
    pub fn parse(source: &str) -> (r: Result<Self, ResourceIDError>)
        ensures
            match parsed_uri(source@) {
                Some(uri) => r matches Ok(rid) && rid@ == uri,
                None => r matches Err(ResourceIDError::InvalidFormat(_)),
            },
    {
        let text = keep_printable(&ascii_lowercase(&chars_of(source)));
        if !is_well_shaped(&text) {
            return Err(ResourceIDError::InvalidFormat(String::new()));
        }
        Ok(Self { uri: string_of(&strip_tags(&text)) })
    }

    /// Reads an identifier from text, as `parse` does.
    pub fn from_str_checked(source: &str) -> (r: Result<Self, ResourceIDError>)
        ensures
            match parsed_uri(source@) {
                Some(uri) => r matches Ok(rid) && rid@ == uri,
                None => r matches Err(ResourceIDError::InvalidFormat(_)),
            },
    {
        Self::parse(source)
    }

    /// Create a derived ResourceID from an existing one, which is nested in it.
    /// ```txt
    /// [assembly:/_pro/_test/usern/materialclasses/ball_of_water_b.materialclass].fx
    ///   derived with ("dx11", "mate") has the resource path
    /// [[assembly:/_pro/_test/usern/materialclasses/ball_of_water_b.materialclass].fx](dx11).pc_mate
    /// ```
    pub fn create_derived(&self, parameters: &str, extension: &str) -> (r: ResourceID)
        ensures
            r@ == derived_uri(self@, parameters@, extension@),
    {
        let mut out: Vec<char> = Vec::new();
        push_str(&mut out, "[");
        push_str(&mut out, self.uri.as_str());
        push_str(&mut out, "]");
        let params = chars_of(parameters);
        if params.len() > 0 {
            push_str(&mut out, "(");
            push_all(&mut out, &params);
            push_str(&mut out, ")");
        }
        push_str(&mut out, ".");
        push_str(&mut out, extension);
        assert(out@ =~= derived_uri(self@, parameters@, extension@));
        ResourceID { uri: string_of(&out) }
    }

    /// Adds `param` to the parameters, given whether there are any yet.
    pub fn add_parameter_to(&mut self, has_parameters: bool, param: &str)
        ensures
            final(self)@ == with_parameter(old(self)@, has_parameters, param@),
    {
        let uri = chars_of(self.uri.as_str());
        let place = if !has_parameters {
            rfind_char(&uri, '.')
        } else {
            rfind_sub(&uri, &chars_of(")."))
        };
        match place {
            Some(at) => {
                proof {
                    lemma_last_index_of(uri@, '.');
                }
                let mut out = slice_of(&uri, 0, at);
                if !has_parameters {
                    push_str(&mut out, "(");
                    push_str(&mut out, param);
                    push_str(&mut out, ")");
                } else {
                    push_str(&mut out, ",");
                    push_str(&mut out, param);
                }
                push_all(&mut out, &slice_of(&uri, at, uri.len()));
                assert(out@ =~= with_parameter(old(self)@, has_parameters, param@));
                self.uri = string_of(&out);
            },
            None => {},
        }
    }

    /// Adds `param` to the parameters: as the first where the identifier
    /// has none, else behind the others.
    pub fn add_parameter(&mut self, param: &str)
        ensures
            final(self)@ == with_parameter(
                old(self)@,
                first_match(parameters_pattern(), old(self)@) is Some,
                param@,
            ),
    {
        let found = captures("(.*)\\((.*)\\)\\.(.*)", self.uri.as_str());
        self.add_parameter_to(found.is_some(), param);
    }

    /// Create a ResourceID with aspect parameters: the identifiers in `ids`
    /// become parameters, one after the other.
    /// ```txt
    /// [assembly:/templates/aspectdummy.aspect].entitytype
    ///   with the aspects [assembly:/_pro/effects/geometry/water.prim].entitytype and
    ///   [modules:/zdisablecameracollisionaspect.class].entitytype has the resource path
    /// [assembly:/templates/aspectdummy.aspect]([assembly:/_pro/effects/geometry/water.prim].entitytype,[modules:/zdisablecameracollisionaspect.class].entitytype).pc_entitytype
    /// ```
    pub fn create_aspect(&self, ids: Vec<&ResourceID>) -> (r: ResourceID)
        ensures
            r@ == aspect_uri(self@, ids@.map_values(|id: &ResourceID| id@), ids@.len() as int),
    {
        let mut rid = self.duplicate();
        let mut i: usize = 0;
        while i < ids.len()
            invariant
                i <= ids@.len(),
                rid@ == aspect_uri(self@, ids@.map_values(|id: &ResourceID| id@), i as int),
            decreases ids@.len() - i,
        {
            rid.add_parameter(ids[i].uri.as_str());
            i += 1;
        }
        rid
    }

    /// The parameters that the groups of a match of the parameters pattern
    /// hold: the pieces of the second group between its commas; none
    /// without a match.
    pub fn parameters_from(found: &Option<Vec<Option<String>>>) -> (r: Vec<String>)
        ensures
            texts(r@) == match found {
                Some(groups) => if groups@.len() > 2 && groups@[2] is Some {
                    pieces(groups@[2]->0@, ',')
                } else {
                    Seq::empty()
                },
                None => Seq::empty(),
            },
    {
        match found {
            Some(groups) => {
                if groups.len() > 2 {
                    match &groups[2] {
                        Some(list) => {
                            return split_on(&chars_of(list.as_str()), ',');
                        },
                        None => {},
                    }
                }
            },
            None => {},
        }
        let r: Vec<String> = Vec::new();
        assert(texts(r@) =~= Seq::<Seq<char>>::empty());
        r
    }

    /// The parameters of the identifier: what stands in its last pair of
    /// parentheses before a `.`, split at the commas.
    pub fn parameters(&self) -> (r: Vec<String>)
        ensures
            texts(r@) == match first_match(parameters_pattern(), self@) {
                Some(groups) => if groups.len() > 2 && groups[2] is Some {
                    pieces(groups[2]->0, ',')
                } else {
                    Seq::empty()
                },
                None => Seq::empty(),
            },
    {
        let found = captures("(.*)\\((.*)\\)\\.(.*)", self.uri.as_str());
        proof {
            if found is Some && found->0@.len() > 2 {
                assert(groups_view(found->0@)[2] == match found->0@[2] {
                    Some(s) => Some(s@),
                    None => None,
                });
            }
        }
        Self::parameters_from(&found)
    }

    /// Get the resource path.
    /// Will append the platform tag
    pub fn resource_path(&self) -> (r: String)
        requires
            self@.contains('.'),
        ensures
            r@ == with_platform(self@),
    {
        let uri = chars_of(self.uri.as_str());
        proof {
            lemma_last_index_of(uri@, '.');
        }
        let dot = match rfind_char(&uri, '.') {
            Some(dot) => dot,
            None => {
                proof {
                    let i = choose|i: int| 0 <= i < uri@.len() && uri@[i] == '.';
                    assert(uri@[i] == '.');
                    assert(false);
                }
                0
            },
        };
        let end = uri.len();
        let mut out = slice_of(&uri, 0, dot + 1);
        push_str(&mut out, "pc_");
        push_all(&mut out, &slice_of(&uri, dot + 1, end));
        assert(out@ =~= with_platform(self@));
        string_of(&out)
    }

    /// Get the base ResourceID within a derived ResourceID: all layers of
    /// brackets but one are peeled off and what is left is parsed again.
    /// Where nothing can be peeled, or what is left does not parse, the
    /// identifier itself comes back.
    /// ```txt
    /// [[[assembly:/_pro/_test/usern/materialclasses/ball_of_water_b.materialclass].fx](dx11).mate](dx12).mate
    ///   has the innermost resource path
    /// [assembly:/_pro/_test/usern/materialclasses/ball_of_water_b.materialclass].pc_fx
    /// ```
    pub fn inner_most_resource_path(&self) -> (r: ResourceID)
        ensures
            r@ == match innermost_text(self@) {
                Some(text) => match parsed_uri(text) {
                    Some(uri) => uri,
                    None => self@,
                },
                None => self@,
            },
    {
        let uri = chars_of(self.uri.as_str());
        let open_count = count_char(&uri, '[');
        if open_count < 2 {
            return self.duplicate();
        }
        let first = match find_char(&uri, ']') {
            Some(i) => i,
            None => {
                return self.duplicate();
            },
        };
        let rest = slice_of(&uri, first + 1, uri.len());
        let second = match find_char(&rest, ']') {
            Some(i) => first + 1 + i,
            None => uri.len(),
        };
        assert(rest@ =~= uri@.skip(first + 1));
        let text = if open_count - 1 <= second {
            slice_of(&uri, open_count - 1, second)
        } else {
            Vec::new()
        };
        assert(Some(text@) =~= innermost_text(self@));
        match Self::parse(string_of(&text).as_str()) {
            Ok(r) => r,
            Err(_) => self.duplicate(),
        }
    }

    /// The identifier that the groups of a match of the inner pattern hold:
    /// what the first group parses to, or `fallback` without a match or
    /// where it does not parse.
    pub fn inner_from(found: &Option<Vec<Option<String>>>, fallback: &ResourceID) -> (r: ResourceID)
        ensures
            r@ == match found {
                Some(groups) => if groups@.len() > 1 && groups@[1] is Some {
                    match parsed_uri(groups@[1]->0@) {
                        Some(uri) => uri,
                        None => fallback@,
                    }
                } else {
                    fallback@
                },
                None => fallback@,
            },
    {
        match found {
            Some(groups) => {
                if groups.len() > 1 {
                    match &groups[1] {
                        Some(inner) => {
                            match Self::parse(inner.as_str()) {
                                Ok(rid) => {
                                    return rid;
                                },
                                Err(_) => {},
                            }
                        },
                        None => {},
                    }
                }
            },
            None => {},
        }
        fallback.duplicate()
    }

    /// Get the ResourceID nested one level down in a derived ResourceID:
    /// what stands in the last pair of brackets that is followed by no
    /// other `]`. An identifier with one `[` comes back itself, as does one
    /// in which nothing is found or whose inside does not parse.
    /// ```txt
    /// [[[assembly:/_pro/_test/usern/materialclasses/ball_of_water_b.materialclass].fx](dx11).mate](dx12).mate
    ///   has the inner resource path
    /// [[assembly:/_pro/_test/usern/materialclasses/ball_of_water_b.materialclass].fx](dx11).pc_mate
    /// ```
    pub fn inner_resource_path(&self) -> (r: ResourceID)
        ensures
            r@ == if count_of(self@, '[') == 1 {
                self@
            } else {
                match first_match(inner_pattern(), self@) {
                    Some(groups) => if groups.len() > 1 && groups[1] is Some {
                        match parsed_uri(groups[1]->0) {
                            Some(uri) => uri,
                            None => self@,
                        }
                    } else {
                        self@
                    },
                    None => self@,
                }
            },
    {
        let uri = chars_of(self.uri.as_str());
        if count_char(&uri, '[') == 1 {
            return self.duplicate();
        }
        let found = captures("\\[(.*?)\\][^]]*$", self.uri.as_str());
        proof {
            if found is Some && found->0@.len() > 1 {
                assert(groups_view(found->0@)[1] == match found->0@[1] {
                    Some(s) => Some(s@),
                    None => None,
                });
            }
        }
        Self::inner_from(&found, self)
    }

    /// The protocol, such as `assembly` in `[assembly:/a/b.c].d`.
    pub fn protocol(&self) -> (r: Option<String>)
        ensures
            match protocol_of(self@) {
                Some(p) => r matches Some(s) && s@ == p,
                None => r is None,
            },
    {
        let uri = chars_of(self.uri.as_str());
        match find_char(&uri, ':') {
            Some(colon) => {
                let n = utf8_len_of(&uri, colon);
                let taken = if n < uri.len() {
                    slice_of(&uri, 0, n)
                } else {
                    uri
                };
                Some(string_of(&remove_char(&taken, '[')))
            },
            None => None,
        }
    }

    /// The path, such as `assembly:/a` in `[assembly:/a/b.c].d`, where it holds no `.`.
    pub fn path(&self) -> (r: Option<String>)
        ensures
            match path_of(self@) {
                Some(p) => r matches Some(s) && s@ == p,
                None => r is None,
            },
    {
        let uri = chars_of(self.uri.as_str());
        let rest = if uri.len() > 0 {
            slice_of(&uri, 1, uri.len())
        } else {
            Vec::new()
        };
        assert(rest@ =~= if self@.len() > 0 {
            self@.skip(1)
        } else {
            Seq::empty()
        });
        match rfind_char(&rest, '/') {
            Some(slash) => {
                let n = utf8_len_of(&rest, slash);
                let p = if n < rest.len() {
                    slice_of(&rest, 0, n)
                } else {
                    rest
                };
                proof {
                    lemma_first_index_of(p@, '.');
                }
                match find_char(&p, '.') {
                    Some(i) => {
                        assert(p@[i as int] == '.');
                        None
                    },
                    None => Some(string_of(&p)),
                }
            },
            None => None,
        }
    }

    pub fn is_empty(&self) -> (r: bool)
        ensures
            r == (self@.len() == 0),
    {
        self.uri.as_str().is_empty()
    }

    /// Whether the identifier has the shape of one.
    pub fn is_valid(&self) -> (r: bool)
        ensures
            r == well_shaped(self@),
    {
        is_well_shaped(&chars_of(self.uri.as_str()))
    }

    /// The runtime identifier of the resource.
    pub fn into_rrid(self) -> (r: RuntimeResourceID)
        requires
            self@.contains('.'),
        ensures
            r == RuntimeResourceID::hashed(self@),
    {
        RuntimeResourceID::from_resource_id(&self)
    }
}

/// `uri` with the first `count` of `ids` added as parameters, one after the other.
pub open spec fn aspect_uri(uri: Seq<char>, ids: Seq<Seq<char>>, count: int) -> Seq<char>
    decreases count,
{
    if count <= 0 {
        uri
    } else {
        let before = aspect_uri(uri, ids, count - 1);
        with_parameter(before, first_match(parameters_pattern(), before) is Some, ids[count - 1])
    }
}


impl std::str::FromStr for ResourceID {
    type Err = ResourceIDError;

    /// Reads an identifier from its text, as `ResourceID::parse` does.
    fn from_str(source: &str) -> (r: Result<Self, ResourceIDError>)
        ensures
            match parsed_uri(source@) {
                Some(uri) => r matches Ok(rid) && rid@ == uri,
                None => r matches Err(ResourceIDError::InvalidFormat(_)),
            },
    {
        ResourceID::parse(source)
    }
}

} // verus!
