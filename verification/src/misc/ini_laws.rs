//! Lookups in configuration files whose sections and options have names
//! of their own, and what merging does to them.

use crate::misc::ini_file_system::{
    bfs_order,
    capped_count,
    ini_after_line,
    ini_after_lines,
    IniState,
    latest_value,
    looked_up,
    merged_commands,
    merged_sections,
    named_section,
    node_count,
    nodes_in,
    section_at,
    sections_view,
    strings,
    IniFile,
    IniFileSection,
    IniFileSystem,
    Lookup,
    option_at,
    option_value,
    with_option,
    with_options,
    with_section,
    with_sections,
    SectionView,
};
use crate::text::upper_text;
use vstd::prelude::*;

verus! {

/// Whether no two options have one key.
pub open spec fn distinct_keys(options: Seq<(Seq<char>, Seq<char>)>) -> bool {
    forall|i: int, j: int|
        0 <= i < j < options.len() ==> (#[trigger] options[i]).0 != (#[trigger] options[j]).0
}

/// Whether no two sections have one name.
pub open spec fn distinct_names(sections: Seq<SectionView>) -> bool {
    forall|i: int, j: int|
        0 <= i < j < sections.len() ==> (#[trigger] sections[i]).name != (
        #[trigger] sections[j]).name
}

/// Whether the sections have names of their own, and the options of each
/// keys of their own.
pub open spec fn sections_ok(sections: Seq<SectionView>) -> bool {
    &&& distinct_names(sections)
    &&& forall|i: int| 0 <= i < sections.len() ==> distinct_keys((#[trigger] sections[i]).options)
}

/// The value of the option `key` of the section `name`, where there is one.
pub open spec fn value_in(sections: Seq<SectionView>, name: Seq<char>, key: Seq<char>) -> Option<
    Seq<char>,
> {
    let at = named_section(sections, name, sections.len() as int);
    if at < sections.len() {
        option_value(sections[at].options, key)
    } else {
        None
    }
}

/// `first` where it is a value, else `other`.
pub open spec fn or_else(first: Option<Seq<char>>, other: Option<Seq<char>>) -> Option<Seq<char>> {
    match first {
        Some(v) => Some(v),
        None => other,
    }
}

/// `option_at` points at the first option of that key, or at the end
/// where there is none.
pub proof fn lemma_option_at(options: Seq<(Seq<char>, Seq<char>)>, key: Seq<char>, count: int)
    requires
        0 <= count <= options.len(),
    ensures
        0 <= option_at(options, key, count) <= count,
        option_at(options, key, count) < count ==> options[option_at(options, key, count)].0 == key,
        forall|i: int| 0 <= i < option_at(options, key, count) ==> (#[trigger] options[i]).0 != key,
    decreases count,
{
    if count > 0 {
        lemma_option_at(options, key, count - 1);
    }
}

/// The first place of a key among the first `count` options is where
/// `option_at` points.
pub proof fn lemma_option_at_is(
    options: Seq<(Seq<char>, Seq<char>)>,
    key: Seq<char>,
    count: int,
    at: int,
)
    requires
        0 <= at <= count <= options.len(),
        at < count ==> options[at].0 == key,
        forall|i: int| 0 <= i < at ==> (#[trigger] options[i]).0 != key,
    ensures
        option_at(options, key, count) == at,
{
    lemma_option_at(options, key, count);
    let found = option_at(options, key, count);
    if found < at {
        assert(options[found].0 != key);
    } else if at < found {
        assert(options[at].0 != key);
    }
}

/// `named_section` points at the first section of that name, or at the
/// end where there is none.
pub proof fn lemma_named_section(sections: Seq<SectionView>, name: Seq<char>, count: int)
    requires
        0 <= count <= sections.len(),
    ensures
        0 <= named_section(sections, name, count) <= count,
        named_section(sections, name, count) < count ==> sections[named_section(
            sections,
            name,
            count,
        )].name == name,
        forall|i: int|
            0 <= i < named_section(sections, name, count) ==> (#[trigger] sections[i]).name != name,
    decreases count,
{
    if count > 0 {
        lemma_named_section(sections, name, count - 1);
    }
}

/// The first place of a name among the first `count` sections is where
/// `named_section` points.
pub proof fn lemma_named_section_is(
    sections: Seq<SectionView>,
    name: Seq<char>,
    count: int,
    at: int,
)
    requires
        0 <= at <= count <= sections.len(),
        at < count ==> sections[at].name == name,
        forall|i: int| 0 <= i < at ==> (#[trigger] sections[i]).name != name,
    ensures
        named_section(sections, name, count) == at,
{
    lemma_named_section(sections, name, count);
    let found = named_section(sections, name, count);
    if found < at {
        assert(sections[found].name != name);
    } else if at < found {
        assert(sections[at].name != name);
    }
}

/// Setting an option gives it its value and leaves the others theirs, and
/// keeps the keys distinct.
pub proof fn lemma_with_option(
    options: Seq<(Seq<char>, Seq<char>)>,
    set: Seq<char>,
    value: Seq<char>,
    key: Seq<char>,
)
    ensures
        option_value(with_option(options, set, value), key) == if key == set {
            Some(value)
        } else {
            option_value(options, key)
        },
        distinct_keys(options) ==> distinct_keys(with_option(options, set, value)),
{
    let n = options.len() as int;
    let after = with_option(options, set, value);
    let at = option_at(options, set, n);
    let was = option_at(options, key, n);
    lemma_option_at(options, set, n);
    lemma_option_at(options, key, n);
    assert forall|i: int| 0 <= i < n implies (#[trigger] after[i]).0 == options[i].0 by {}
    if at < n {
        if key == set {
            lemma_option_at_is(after, key, n, at);
        } else {
            assert forall|i: int| 0 <= i < was implies (#[trigger] after[i]).0 != key by {
                assert(options[i].0 != key);
            }
            lemma_option_at_is(after, key, n, was);
        }
    } else {
        if key == set {
            assert forall|i: int| 0 <= i < n implies (#[trigger] after[i]).0 != key by {
                assert(options[i].0 != key);
            }
            lemma_option_at_is(after, key, n + 1, n);
        } else {
            assert forall|i: int| 0 <= i < was implies (#[trigger] after[i]).0 != key by {
                assert(options[i].0 != key);
            }
            if was < n {
                lemma_option_at_is(after, key, n + 1, was);
            } else {
                lemma_option_at_is(after, key, n + 1, n + 1);
            }
        }
    }
    if distinct_keys(options) {
        assert forall|i: int, j: int| 0 <= i < j < after.len() implies (#[trigger] after[i]).0 != (
        #[trigger] after[j]).0 by {
            if j < n {
                assert(options[i].0 != options[j].0);
            } else {
                assert(options[i].0 != set);
            }
        }
    }
}

/// Setting the first `count` of `added`, which have keys of their own,
/// gives each of them its value and leaves the other options theirs, and
/// keeps the keys distinct.
pub proof fn lemma_with_options(
    options: Seq<(Seq<char>, Seq<char>)>,
    added: Seq<(Seq<char>, Seq<char>)>,
    count: int,
    key: Seq<char>,
)
    requires
        0 <= count <= added.len(),
        distinct_keys(added),
    ensures
        option_value(with_options(options, added, count), key) == if option_at(added, key, count)
            < count {
            Some(added[option_at(added, key, count)].1)
        } else {
            option_value(options, key)
        },
        distinct_keys(options) ==> distinct_keys(with_options(options, added, count)),
    decreases count,
{
    if count > 0 {
        lemma_with_options(options, added, count - 1, key);
        let before = with_options(options, added, count - 1);
        lemma_with_option(before, added[count - 1].0, added[count - 1].1, key);
        lemma_option_at(added, key, count - 1);
        if added[count - 1].0 == key {
            let earlier = option_at(added, key, count - 1);
            if earlier < count - 1 {
                assert(added[earlier].0 != added[count - 1].0);
            }
        }
    }
}

/// Merging a section, whose options have keys of their own, gives each
/// of them its value in the section of that name and leaves every other
/// lookup as it was; and it keeps names and keys distinct.
pub proof fn lemma_with_section(
    sections: Seq<SectionView>,
    section: SectionView,
    name: Seq<char>,
    key: Seq<char>,
)
    requires
        distinct_keys(section.options),
    ensures
        value_in(with_section(sections, section), name, key) == if name == section.name {
            or_else(option_value(section.options, key), value_in(sections, name, key))
        } else {
            value_in(sections, name, key)
        },
        sections_ok(sections) ==> sections_ok(with_section(sections, section)),
{
    let n = sections.len() as int;
    let after = with_section(sections, section);
    let at = named_section(sections, section.name, n);
    let was = named_section(sections, name, n);
    lemma_named_section(sections, section.name, n);
    lemma_named_section(sections, name, n);
    assert forall|i: int| 0 <= i < n implies (#[trigger] after[i]).name == sections[i].name by {}
    assert forall|i: int| 0 <= i < was implies (#[trigger] after[i]).name != name by {
        assert(sections[i].name != name);
    }
    if at < n {
        lemma_named_section_is(after, name, n, was);
        if name == section.name {
            lemma_with_options(
                sections[at].options,
                section.options,
                section.options.len() as int,
                key,
            );
            lemma_option_at(section.options, key, section.options.len() as int);
        }
    } else {
        if was < n {
            lemma_named_section_is(after, name, n + 1, was);
        } else if name == section.name {
            lemma_named_section_is(after, name, n + 1, n);
        } else {
            lemma_named_section_is(after, name, n + 1, n + 1);
        }
    }
    if sections_ok(sections) {
        assert forall|i: int, j: int| 0 <= i < j < after.len() implies (#[trigger] after[i]).name
            != (#[trigger] after[j]).name by {
            if j < n {
                assert(sections[i].name != sections[j].name);
            } else {
                assert(sections[i].name != section.name);
            }
        }
        assert forall|i: int| 0 <= i < after.len() implies distinct_keys(
            (#[trigger] after[i]).options,
        ) by {
            if i < n {
                assert(distinct_keys(sections[i].options));
                if at < n && i == at {
                    lemma_with_options(
                        sections[at].options,
                        section.options,
                        section.options.len() as int,
                        key,
                    );
                }
            }
        }
    }
}

/// Merging the first `count` of `added`, which have names and keys of
/// their own, gives each of their options its value and leaves every
/// other lookup as it was; and it keeps names and keys distinct.
pub proof fn lemma_with_sections(
    sections: Seq<SectionView>,
    added: Seq<SectionView>,
    count: int,
    name: Seq<char>,
    key: Seq<char>,
)
    requires
        0 <= count <= added.len(),
        sections_ok(added),
    ensures
        value_in(with_sections(sections, added, count), name, key) == if named_section(
            added,
            name,
            count,
        ) < count {
            or_else(
                option_value(added[named_section(added, name, count)].options, key),
                value_in(sections, name, key),
            )
        } else {
            value_in(sections, name, key)
        },
        sections_ok(sections) ==> sections_ok(with_sections(sections, added, count)),
    decreases count,
{
    if count > 0 {
        lemma_with_sections(sections, added, count - 1, name, key);
        let before = with_sections(sections, added, count - 1);
        assert(distinct_keys(added[count - 1].options));
        lemma_with_section(before, added[count - 1], name, key);
        lemma_named_section(added, name, count - 1);
        if added[count - 1].name == name {
            let earlier = named_section(added, name, count - 1);
            if earlier < count - 1 {
                assert(added[earlier].name != added[count - 1].name);
            }
        }
    }
}

/// The value that a lookup gave, where it gave one.
pub open spec fn found(lookup: Lookup) -> Option<Seq<char>> {
    match lookup {
        Lookup::Value(value) => Some(value),
        _ => None,
    }
}

/// `section_at` points where `named_section` points among the contents.
pub proof fn lemma_section_at(sections: Seq<IniFileSection>, name: Seq<char>, count: int)
    requires
        0 <= count <= sections.len(),
    ensures
        section_at(sections, name, count) == named_section(sections_view(sections), name, count),
    decreases count,
{
    if count > 0 {
        lemma_section_at(sections, name, count - 1);
    }
}

/// Looking an option up in sections gives the value that their contents
/// hold for its name in upper case.
pub proof fn lemma_looked_up(sections: Seq<IniFileSection>, name: Seq<char>, option: Seq<char>)
    ensures
        found(looked_up(sections, name, option)) == value_in(
            sections_view(sections),
            name,
            upper_text(option),
        ),
{
    let n = sections.len() as int;
    lemma_section_at(sections, name, n);
    lemma_named_section(sections_view(sections), name, n);
    let at = section_at(sections, name, n);
    if at < n {
        assert(sections_view(sections)[at] == sections[at]@);
    }
}

/// Merging the sections of the first `count` files, each with names and
/// keys of its own, gives every lookup the value of the last of the files
/// that has one, and leaves it as it was where none has; and it keeps
/// names and keys distinct.
pub proof fn lemma_merged_sections(
    sections: Seq<SectionView>,
    files: Seq<IniFile>,
    count: int,
    name: Seq<char>,
    option: Seq<char>,
)
    requires
        0 <= count <= files.len(),
        forall|i: int| 0 <= i < count ==> (#[trigger] files[i]).wf(),
    ensures
        value_in(merged_sections(sections, files, count), name, upper_text(option)) == or_else(
            latest_value(files, name, option, count),
            value_in(sections, name, upper_text(option)),
        ),
        sections_ok(sections) ==> sections_ok(merged_sections(sections, files, count)),
    decreases count,
{
    if count > 0 {
        lemma_merged_sections(sections, files, count - 1, name, option);
        let file = files[count - 1];
        let added = sections_view(file.sections@);
        let before = merged_sections(sections, files, count - 1);
        assert(file.wf());
        lemma_with_sections(before, added, added.len() as int, name, upper_text(option));
        lemma_named_section(added, name, added.len() as int);
        lemma_looked_up(file.sections@, name, option);
    }
}

/// The files of a queue take as many nodes as the files of its start and
/// those of its end.
proof fn lemma_nodes_joined(a: Seq<IniFile>, b: Seq<IniFile>, k: int)
    requires
        0 <= k <= b.len(),
    ensures
        nodes_in(a + b, a.len() + k) == nodes_in(a, a.len() as int) + nodes_in(b, k),
    decreases k,
{
    if k > 0 {
        lemma_nodes_joined(a, b, k - 1);
        assert((a + b)[a.len() + k - 1] == b[k - 1]);
    } else {
        lemma_nodes_start(a, b, a.len() as int);
    }
}

proof fn lemma_nodes_start(a: Seq<IniFile>, b: Seq<IniFile>, j: int)
    requires
        0 <= j <= a.len(),
    ensures
        nodes_in(a + b, j) == nodes_in(a, j),
    decreases j,
{
    if j > 0 {
        lemma_nodes_start(a, b, j - 1);
        assert((a + b)[j - 1] == a[j - 1]);
    }
}

/// Walking a queue with fuel for every node of it gives the same files
/// whatever more fuel there is.
pub proof fn lemma_bfs_fuel(queue: Seq<IniFile>, fuel: nat, more: nat)
    requires
        nodes_in(queue, queue.len() as int) <= fuel <= more,
    ensures
        bfs_order(queue, fuel) == bfs_order(queue, more),
    decreases fuel,
{
    if queue.len() > 0 {
        let first = queue[0];
        let rest = queue.skip(1);
        let next = rest + first.includes@;
        assert(queue =~= seq![first] + rest);
        lemma_nodes_joined(seq![first], rest, rest.len() as int);
        assert(nodes_in(seq![first], 1) == node_count(first)) by {
            assert(nodes_in(seq![first], 0) == 0);
            assert(seq![first][0] == first);
        }
        lemma_nodes_joined(rest, first.includes@, first.includes@.len() as int);
        assert(nodes_in(next, next.len() as int) == nodes_in(queue, queue.len() as int) - 1);
        lemma_bfs_fuel(next, (fuel - 1) as nat, (more - 1) as nat);
    }
}

/// Among files with one more before them, the last value of an option is
/// that of the files, or else that of the one before them.
proof fn lemma_latest_behind(
    first: IniFile,
    files: Seq<IniFile>,
    count: int,
    name: Seq<char>,
    option: Seq<char>,
)
    requires
        0 <= count <= files.len(),
    ensures
        latest_value(seq![first] + files, name, option, count + 1) == or_else(
            latest_value(files, name, option, count),
            found(looked_up(first.sections@, name, option)),
        ),
    decreases count,
{
    let all = seq![first] + files;
    if count > 0 {
        lemma_latest_behind(first, files, count - 1, name, option);
        assert(all[count] == files[count - 1]);
        assert(latest_value(all, name, option, count + 1) == match looked_up(
            all[count].sections@,
            name,
            option,
        ) {
            Lookup::Value(value) => Some(value),
            _ => latest_value(all, name, option, count),
        });
    } else {
        assert(all[0] == first);
        assert(latest_value(all, name, option, 0) is None);
        assert(latest_value(all, name, option, 1) == match looked_up(
            all[0].sections@,
            name,
            option,
        ) {
            Lookup::Value(value) => Some(value),
            _ => latest_value(all, name, option, 0),
        });
    }
}

/// Normalizing keeps every lookup: in a file system whose files have
/// sections with names of their own, and options with keys of their own,
/// what `IniFileSystem::option` finds before `normalize` is what
/// `IniFile::get_option` finds in the root afterwards (a value where it
/// found one, none where it found none); and the root keeps names and keys
/// distinct.
pub proof fn law_normalize_keeps_lookups(
    before: IniFileSystem,
    after: IniFileSystem,
    name: Seq<char>,
    option: Seq<char>,
)
    requires
        before.wf(),
        ({
            let files = bfs_order(before.root.includes@, capped_count(before.root));
            sections_view(after.root.sections@) == merged_sections(
                sections_view(before.root.sections@),
                files,
                files.len() as int,
            )
        }),
    ensures
        ({
            let all = bfs_order(seq![before.root], capped_count(before.root));
            latest_value(all, name, option, all.len() as int) == found(
                looked_up(after.root.sections@, name, option),
            )
        }),
        after.root.wf(),
{
    let root = before.root;
    let fuel = capped_count(root);
    let all = bfs_order(seq![root], fuel);
    let files = bfs_order(root.includes@, fuel);
    assert(seq![root].skip(1) + root.includes@ =~= root.includes@);
    lemma_bfs_fuel(root.includes@, (fuel - 1) as nat, fuel);
    assert(all == seq![root] + files);
    assert forall|i: int| 0 <= i < files.len() implies (#[trigger] files[i]).wf() by {
        assert(all[i + 1] == files[i]);
    }
    assert(all[0] == root);
    lemma_merged_sections(
        sections_view(root.sections@),
        files,
        files.len() as int,
        name,
        option,
    );
    lemma_latest_behind(root, files, files.len() as int, name, option);
    lemma_looked_up(root.sections@, name, option);
    lemma_looked_up(after.root.sections@, name, option);
}

/// Setting options keeps the keys distinct.
pub proof fn lemma_with_options_keeps(
    options: Seq<(Seq<char>, Seq<char>)>,
    added: Seq<(Seq<char>, Seq<char>)>,
    count: int,
)
    requires
        0 <= count <= added.len(),
        distinct_keys(options),
    ensures
        distinct_keys(with_options(options, added, count)),
    decreases count,
{
    if count > 0 {
        lemma_with_options_keeps(options, added, count - 1);
        lemma_with_option(
            with_options(options, added, count - 1),
            added[count - 1].0,
            added[count - 1].1,
            added[count - 1].0,
        );
    }
}

/// Setting an option of one section keeps names and keys distinct.
pub proof fn lemma_section_set(
    sections: Seq<SectionView>,
    at: int,
    key: Seq<char>,
    value: Seq<char>,
)
    requires
        sections_ok(sections),
        0 <= at < sections.len(),
    ensures
        sections_ok(
            sections.update(
                at,
                SectionView {
                    name: sections[at].name,
                    options: with_option(sections[at].options, key, value),
                },
            ),
        ),
{
    let after = sections.update(
        at,
        SectionView {
            name: sections[at].name,
            options: with_option(sections[at].options, key, value),
        },
    );
    lemma_with_option(sections[at].options, key, value, key);
    assert forall|i: int, j: int| 0 <= i < j < after.len() implies (#[trigger] after[i]).name != (
    #[trigger] after[j]).name by {
        assert(sections[i].name != sections[j].name);
    }
    assert forall|i: int| 0 <= i < after.len() implies distinct_keys(
        (#[trigger] after[i]).options,
    ) by {
        assert(distinct_keys(sections[i].options));
    }
}

/// Reading a line keeps names and keys distinct.
pub proof fn lemma_line_keeps(content: Seq<char>, st: IniState, line: Seq<char>)
    requires
        sections_ok(st.sections),
        ini_after_line(content, st, line) is Some,
    ensures
        sections_ok(ini_after_line(content, st, line)->0.sections),
{
    let after = ini_after_line(content, st, line)->0.sections;
    let n = st.sections.len() as int;
    if after != st.sections {
        if line.len() > 0 && line[0] == '[' {
            let name = line.subrange(1, line.len() - 1);
            lemma_named_section(st.sections, name, n);
            assert(after == st.sections.push(SectionView { name, options: Seq::empty() }));
            assert forall|i: int, j: int| 0 <= i < j < after.len() implies (
            #[trigger] after[i]).name != (#[trigger] after[j]).name by {
                if j < n {
                    assert(st.sections[i].name != st.sections[j].name);
                } else {
                    assert(st.sections[i].name != name);
                }
            }
            assert forall|i: int| 0 <= i < after.len() implies distinct_keys(
                (#[trigger] after[i]).options,
            ) by {
                if i < n {
                    assert(distinct_keys(st.sections[i].options));
                }
            }
        } else {
            let at = named_section(st.sections, st.active, n);
            lemma_named_section(st.sections, st.active, n);
            let eq = crate::text::first_index_of(line, '=');
            lemma_section_set(st.sections, at, upper_text(line.take(eq)), line.skip(eq + 1));
        }
    }
}

/// What is read of a text has sections with names of their own, and
/// options with keys of their own.
pub proof fn lemma_lines_keep(content: Seq<char>, lines: Seq<Seq<char>>, count: int)
    requires
        ini_after_lines(content, lines, count) is Some,
    ensures
        sections_ok(ini_after_lines(content, lines, count)->0.sections),
    decreases count,
{
    if count > 0 {
        lemma_lines_keep(content, lines, count - 1);
        lemma_line_keeps(
            content,
            ini_after_lines(content, lines, count - 1)->0,
            lines[count - 1],
        );
    }
}

/// A system whose root is well formed and includes nothing is well formed.
pub proof fn lemma_single_wf(system: IniFileSystem)
    requires
        system.root.wf(),
        system.root.includes@.len() == 0,
    ensures
        system.wf(),
{
    let root = system.root;
    assert(nodes_in(root.includes@, 0) == 0);
    assert(node_count(root) == 1);
    let next = seq![root].skip(1) + root.includes@;
    assert(next.len() == 0);
    assert(bfs_order(next, 0) =~= Seq::empty());
    assert(bfs_order(seq![root], 1) =~= seq![root]);
}

/// Normalizing what is normalized changes nothing: where the root
/// includes no file, no file is visited, and the sections and commands
/// that `IniFileSystem::normalize` gives are those of the root.
pub proof fn law_normalize_twice(system: IniFileSystem)
    requires
        system.root.includes@.len() == 0,
    ensures
        ({
            let files = bfs_order(system.root.includes@, capped_count(system.root));
            &&& files.len() == 0
            &&& merged_sections(sections_view(system.root.sections@), files, files.len() as int)
                == sections_view(system.root.sections@)
            &&& merged_commands(strings(system.root.console_cmds@), files, files.len() as int)
                == strings(system.root.console_cmds@)
        }),
{
}

} // verus!
