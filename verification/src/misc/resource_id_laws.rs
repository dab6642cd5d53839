//! Parsing what `resource_path` wrote gives the identifier back.

use crate::misc::resource_id::{
    in_tag,
    is_kept,
    parsed_uri,
    printable,
    tag_at,
    untagged_upto,
    well_shaped,
    with_platform,
};
use crate::text::{
    ascii_lower,
    has_sub,
    last_index_of,
    lemma_last_index_of,
    occurs_at,
    to_ascii_lower,
};
use vstd::prelude::*;

verus! {

/// Whether `uri` has the shape in which `ResourceID::parse` leaves an
/// identifier: it is well shaped, in lower case and free of control
/// characters.
pub open spec fn parsed_shape(uri: Seq<char>) -> bool {
    &&& well_shaped(uri)
    &&& forall|i: int| 0 <= i < uri.len() ==> ascii_lower(#[trigger] uri[i]) == uri[i]
    &&& forall|i: int| 0 <= i < uri.len() ==> is_kept(#[trigger] uri[i])
}

/// Whether `uri` holds no platform tag before its last `.`: `pc_` stands
/// behind no `.` but, at most, the last.
pub open spec fn untagged_before_extension(uri: Seq<char>) -> bool {
    forall|p: int| tag_at(uri, p) ==> p == last_index_of(uri, '.') + 1
}

/// A text whose characters are all kept is kept whole.
proof fn lemma_printable_all(s: Seq<char>)
    requires
        forall|i: int| 0 <= i < s.len() ==> is_kept(#[trigger] s[i]),
    ensures
        printable(s) == s,
    decreases s.len(),
{
    if s.len() > 0 {
        let rest = s.drop_last();
        assert forall|i: int| 0 <= i < rest.len() implies is_kept(#[trigger] rest[i]) by {
            assert(rest[i] == s[i]);
        }
        lemma_printable_all(rest);
        assert(is_kept(s[s.len() - 1]));
        assert(rest.push(s.last()) =~= s);
    } else {
        assert(printable(s) =~= s);
    }
}

/// The characters of `with_platform(uri)`, place by place.
proof fn lemma_with_platform(uri: Seq<char>)
    requires
        uri.contains('.'),
    ensures
        ({
            let d = last_index_of(uri, '.');
            let s = with_platform(uri);
            &&& 0 <= d < uri.len()
            &&& uri[d] == '.'
            &&& s.len() == uri.len() + 3
            &&& forall|i: int| 0 <= i <= d ==> #[trigger] s[i] == uri[i]
            &&& s[d + 1] == 'p' && s[d + 2] == 'c' && s[d + 3] == '_'
            &&& forall|i: int| d + 4 <= i < s.len() ==> #[trigger] s[i] == uri[i - 3]
            &&& forall|i: int| d < i < uri.len() ==> #[trigger] uri[i] != '.'
        }),
{
    lemma_last_index_of(uri, '.');
    let d = last_index_of(uri, '.');
    if d < 0 {
        let i = choose|i: int| 0 <= i < uri.len() && uri[i] == '.';
        assert(uri[i] == '.');
    }
    reveal_strlit("pc_");
    let s = with_platform(uri);
    assert(s.len() == uri.len() + 3);
}

/// Stripping the platform tags of `with_platform(uri)` gives `uri`, up to each place.
proof fn lemma_untagged_upto(uri: Seq<char>, k: int)
    requires
        uri.contains('.'),
        untagged_before_extension(uri),
        0 <= k <= uri.len() + 3,
    ensures
        ({
            let d = last_index_of(uri, '.');
            untagged_upto(with_platform(uri), k) == if k <= d + 1 {
                uri.take(k)
            } else if k <= d + 4 {
                uri.take(d + 1)
            } else {
                uri.take(k - 3)
            }
        }),
    decreases k,
{
    lemma_with_platform(uri);
    let d = last_index_of(uri, '.');
    let s = with_platform(uri);
    if k == 0 {
        assert(untagged_upto(s, 0) =~= uri.take(0));
    } else {
        lemma_untagged_upto(uri, k - 1);
        let i = k - 1;
        if i <= d {
            assert(!in_tag(s, i)) by {
                lemma_no_tag_before(uri, i, i);
                lemma_no_tag_before(uri, i, i - 1);
                lemma_no_tag_before(uri, i, i - 2);
            }
            assert(uri.take(i).push(s[i]) =~= uri.take(k));
        } else if i <= d + 3 {
            assert(tag_at(s, d + 1));
            assert(in_tag(s, i));
        } else {
            assert(!in_tag(s, i)) by {
                lemma_no_tag_behind(uri, i);
                lemma_no_tag_behind(uri, i - 1);
                lemma_no_tag_behind(uri, i - 2);
            }
            if i == d + 4 {
                assert(uri.take(d + 1).push(s[i]) =~= uri.take(k - 3));
            } else {
                assert(uri.take(i - 3).push(s[i]) =~= uri.take(k - 3));
            }
        }
    }
}

/// No platform tag of `with_platform(uri)` starts at or before the last `.`
/// of `uri`, at a place `p` that is at most two before a place `i` there.
proof fn lemma_no_tag_before(uri: Seq<char>, i: int, p: int)
    requires
        uri.contains('.'),
        untagged_before_extension(uri),
        0 <= i <= last_index_of(uri, '.'),
        i - 2 <= p <= i,
    ensures
        !tag_at(with_platform(uri), p),
{
    lemma_with_platform(uri);
    let d = last_index_of(uri, '.');
    let s = with_platform(uri);
    if tag_at(s, p) {
        if p + 2 <= d {
            assert(s[p - 1] == uri[p - 1]);
            assert(s[p] == uri[p]);
            assert(s[p + 1] == uri[p + 1]);
            assert(s[p + 2] == uri[p + 2]);
            assert(tag_at(uri, p));
        } else if p + 1 == d {
            assert(s[p + 1] == uri[d]);
        } else {
            assert(p == d);
            assert(s[p] == uri[d]);
        }
    }
}

/// No platform tag of `with_platform(uri)` starts behind the one that was put in.
proof fn lemma_no_tag_behind(uri: Seq<char>, p: int)
    requires
        uri.contains('.'),
        last_index_of(uri, '.') + 2 <= p,
    ensures
        !tag_at(with_platform(uri), p),
{
    lemma_with_platform(uri);
    let d = last_index_of(uri, '.');
    let s = with_platform(uri);
    if tag_at(s, p) {
        if p - 1 >= d + 4 {
            assert(s[p - 1] == uri[p - 1 - 3]);
            assert(uri[p - 4] != '.');
        }
    }
}

/// `unknown` does not come to stand in an identifier when the platform tag is put in.
proof fn lemma_no_unknown(uri: Seq<char>)
    requires
        uri.contains('.'),
        !has_sub(uri, "unknown"@),
    ensures
        !has_sub(with_platform(uri), "unknown"@),
{
    lemma_with_platform(uri);
    reveal_strlit("unknown");
    let d = last_index_of(uri, '.');
    let s = with_platform(uri);
    let pat = "unknown"@;
    assert forall|a: int| !occurs_at(s, pat, a) by {
        if occurs_at(s, pat, a) {
            let w = s.subrange(a, a + 7);
            assert forall|j: int| 0 <= j < 7 implies s[a + j] == pat[j] by {
                assert(w[j] == s[a + j]);
            }
            if a + 7 <= d + 1 {
                assert(uri.subrange(a, a + 7) =~= pat) by {
                    assert forall|j: int| 0 <= j < 7 implies uri.subrange(a, a + 7)[j]
                        == pat[j] by {
                        assert(s[a + j] == uri[a + j]);
                    }
                }
                assert(occurs_at(uri, pat, a));
            } else if a >= d + 4 {
                assert(uri.subrange(a - 3, a + 4) =~= pat) by {
                    assert forall|j: int| 0 <= j < 7 implies uri.subrange(a - 3, a + 4)[j]
                        == pat[j] by {
                        assert(s[a + j] == uri[a + j - 3]);
                    }
                }
                assert(occurs_at(uri, pat, a - 3));
            } else {
                // The window holds the `.` or starts inside the tag.
                assert(pat[0] == 'u' && pat[1] == 'n' && pat[2] == 'k' && pat[3] == 'n' && pat[4]
                    == 'o' && pat[5] == 'w' && pat[6] == 'n');
                if a <= d {
                    let j = d - a;
                    assert(0 <= j < 7);
                    assert(s[a + j] == pat[j]);
                    assert(s[d] == '.');
                } else {
                    assert(s[a + 0] == pat[0]);
                }
            }
        }
    }
}

/// Parsing the resource path of an identifier gives the identifier back:
/// for every identifier `uri` that `parse` gives for some text, that has an
/// extension and holds no platform tag before its last `.`, `parse`
/// recovers `uri` from what `resource_path` writes.
pub proof fn law_parse_of_resource_path(source: Seq<char>, uri: Seq<char>)
    requires
        parsed_uri(source) == Some(uri),
        uri.contains('.'),
        untagged_before_extension(uri),
    ensures
        parsed_uri(with_platform(uri)) == Some(uri),
{
    lemma_parsed_shape(source);
    lemma_path_parses(uri);
}

/// Parsing the resource path of a text in the shape of a parsed
/// identifier, with an extension and no platform tag before its last `.`,
/// gives the text.
proof fn lemma_path_parses(uri: Seq<char>)
    requires
        parsed_shape(uri),
        uri.contains('.'),
        untagged_before_extension(uri),
    ensures
        parsed_uri(with_platform(uri)) == Some(uri),
{
    lemma_with_platform(uri);
    let d = last_index_of(uri, '.');
    let s = with_platform(uri);
    assert(to_ascii_lower(s) =~= s) by {
        assert forall|i: int| 0 <= i < s.len() implies ascii_lower(s[i]) == s[i] by {
            if i <= d {
                assert(s[i] == uri[i]);
            } else if i >= d + 4 {
                assert(s[i] == uri[i - 3]);
            }
        }
    }
    assert forall|i: int| 0 <= i < s.len() implies is_kept(#[trigger] s[i]) by {
        if i <= d {
            assert(s[i] == uri[i]);
        } else if i >= d + 4 {
            assert(s[i] == uri[i - 3]);
        }
    }
    lemma_printable_all(s);
    lemma_no_unknown(uri);
    assert(well_shaped(s)) by {
        assert(s[0] == uri[0]);
        let close = choose|i: int| 0 <= i < uri.len() && uri[i] == ']';
        if close <= d {
            assert(s[close] == ']');
        } else {
            assert(s[close + 3] == uri[close]);
        }
        if s.contains('*') {
            let star = choose|i: int| 0 <= i < s.len() && s[i] == '*';
            if star <= d {
                assert(uri[star] == '*');
            } else if star >= d + 4 {
                assert(s[star] == uri[star - 3]);
                assert(uri[star - 3] == '*');
            }
        }
    }
    lemma_untagged_upto(uri, uri.len() as int + 3);
    assert(uri.take(uri.len() as int) =~= uri);
}

/// A character in a platform tag is `p`, `c` or `_`, and not the first.
proof fn lemma_tag_chars(s: Seq<char>, i: int)
    requires
        in_tag(s, i),
    ensures
        1 <= i < s.len(),
        s[i] == 'p' || s[i] == 'c' || s[i] == '_',
{
}

/// What is left of the first `k` characters is no longer than they are,
/// and each character of it is one of them.
proof fn lemma_untagged_members(s: Seq<char>, k: int)
    requires
        0 <= k <= s.len(),
    ensures
        untagged_upto(s, k).len() <= k,
        forall|j: int|
            0 <= j < untagged_upto(s, k).len() ==> exists|i: int|
                0 <= i < k && s[i] == #[trigger] untagged_upto(s, k)[j],
    decreases k,
{
    if k > 0 {
        lemma_untagged_members(s, k - 1);
        let before = untagged_upto(s, k - 1);
        let now = untagged_upto(s, k);
        assert forall|j: int| 0 <= j < now.len() implies exists|i: int|
            0 <= i < k && s[i] == #[trigger] now[j] by {
            if j < before.len() {
                let i = choose|i: int| 0 <= i < k - 1 && s[i] == before[j];
                assert(s[i] == now[j]);
            } else {
                assert(s[k - 1] == now[j]);
            }
        }
    }
}

/// What is left of fewer characters starts what is left of more.
proof fn lemma_untagged_grows(s: Seq<char>, k: int, more: int)
    requires
        0 <= k <= more <= s.len(),
    ensures
        untagged_upto(s, k).len() <= untagged_upto(s, more).len(),
        untagged_upto(s, more).take(untagged_upto(s, k).len() as int) == untagged_upto(s, k),
    decreases more - k,
{
    if k < more {
        lemma_untagged_grows(s, k, more - 1);
        assert(untagged_upto(s, more).take(untagged_upto(s, k).len() as int) =~= untagged_upto(
            s,
            k,
        ));
    } else {
        assert(untagged_upto(s, more).take(untagged_upto(s, k).len() as int) =~= untagged_upto(
            s,
            k,
        ));
    }
}

/// Behind a character of a platform tag, what is left ends in the `.`
/// that leads the tag.
proof fn lemma_tag_follows_dot(s: Seq<char>, k: int)
    requires
        1 <= k <= s.len(),
        in_tag(s, k - 1),
    ensures
        untagged_upto(s, k).len() > 0,
        untagged_upto(s, k).last() == '.',
    decreases k,
{
    if tag_at(s, k - 1) {
        // The `.` before the tag is in no tag, so it is kept.
        if in_tag(s, k - 2) {
            lemma_tag_chars(s, k - 2);
        }
        assert(untagged_upto(s, k - 1) == untagged_upto(s, k - 2).push(s[k - 2]));
    } else {
        assert(in_tag(s, k - 2));
        lemma_tag_follows_dot(s, k - 1);
    }
}

/// The last `n` characters of what is left, where none but the last may be
/// a `.`, are the last `n` of the characters it is left of.
proof fn lemma_untagged_tail(s: Seq<char>, k: int, n: int)
    requires
        0 <= k <= s.len(),
        1 <= n <= untagged_upto(s, k).len(),
        !in_tag(s, k - 1),
        forall|j: int|
            untagged_upto(s, k).len() - n <= j < untagged_upto(s, k).len() - 1 ==> untagged_upto(
                s,
                k,
            )[j] != '.',
    ensures
        n <= k,
        untagged_upto(s, k).subrange(
            untagged_upto(s, k).len() - n,
            untagged_upto(s, k).len() as int,
        ) == s.subrange(k - n, k),
    decreases n,
{
    let now = untagged_upto(s, k);
    let before = untagged_upto(s, k - 1);
    lemma_untagged_members(s, k);
    assert(k >= 1);
    assert(now == before.push(s[k - 1]));
    if n == 1 {
        assert(now.subrange(now.len() - 1, now.len() as int) =~= s.subrange(k - 1, k));
    } else {
        assert(before.last() == now[now.len() - 2]);
        if in_tag(s, k - 2) {
            lemma_tag_follows_dot(s, k - 1);
        }
        assert forall|j: int| before.len() - (n - 1) <= j < before.len() - 1 implies before[j]
            != '.' by {
            assert(before[j] == now[j]);
        }
        lemma_untagged_tail(s, k - 1, n - 1);
        let left = before.subrange(before.len() - (n - 1), before.len() as int);
        let window = now.subrange(now.len() - n, now.len() as int);
        let wanted = s.subrange(k - n, k);
        assert forall|j: int| 0 <= j < n implies #[trigger] window[j] == wanted[j] by {
            if j < n - 1 {
                assert(left[j] == s.subrange(k - n, k - 1)[j]);
                assert(window[j] == before[before.len() - (n - 1) + j]);
            }
        }
        assert(window =~= wanted);
    }
}

/// Taking platform tags out of a text brings no `unknown` into it.
proof fn lemma_untagged_unknown(s: Seq<char>, k: int)
    requires
        0 <= k <= s.len(),
        !has_sub(s, "unknown"@),
    ensures
        !has_sub(untagged_upto(s, k), "unknown"@),
    decreases k,
{
    reveal_strlit("unknown");
    let pat = "unknown"@;
    if k > 0 {
        lemma_untagged_unknown(s, k - 1);
        let before = untagged_upto(s, k - 1);
        let now = untagged_upto(s, k);
        assert forall|a: int| !occurs_at(now, pat, a) by {
            if occurs_at(now, pat, a) {
                let w = now.subrange(a, a + 7);
                assert forall|j: int| 0 <= j < 7 implies now[a + j] == pat[j] by {
                    assert(w[j] == now[a + j]);
                }
                if a + 7 <= before.len() {
                    assert(before.subrange(a, a + 7) =~= w);
                    assert(occurs_at(before, pat, a));
                } else {
                    assert(!in_tag(s, k - 1));
                    assert forall|j: int| now.len() - 7 <= j < now.len() - 1 implies now[j]
                        != '.' by {
                        assert(now[a + (j - a)] == pat[j - a]);
                    }
                    lemma_untagged_tail(s, k, 7);
                    assert(occurs_at(s, pat, k - 7));
                }
            }
        }
    } else {
        assert forall|a: int| !occurs_at(untagged_upto(s, 0), pat, a) by {}
    }
}

/// What `printable` leaves of a text is made of characters of the text
/// that are kept.
proof fn lemma_printable_members(s: Seq<char>)
    ensures
        forall|j: int|
            0 <= j < printable(s).len() ==> is_kept(#[trigger] printable(s)[j]) && exists|i: int|
                0 <= i < s.len() && s[i] == printable(s)[j],
        s.len() > 0 && is_kept(s[0]) ==> printable(s).len() > 0 && printable(s)[0] == s[0],
        forall|i: int|
            0 <= i < s.len() && is_kept(#[trigger] s[i]) ==> printable(s).contains(s[i]),
    decreases s.len(),
{
    if s.len() > 0 {
        let rest = s.drop_last();
        lemma_printable_members(rest);
        let now = printable(s);
        let before = printable(rest);
        assert forall|j: int| 0 <= j < now.len() implies is_kept(#[trigger] now[j]) && exists|
            i: int,
        |
            0 <= i < s.len() && s[i] == now[j] by {
            if j < before.len() {
                let i = choose|i: int| 0 <= i < rest.len() && rest[i] == before[j];
                assert(s[i] == now[j]);
            } else {
                assert(s[s.len() - 1] == now[j]);
            }
        }
        assert forall|i: int| 0 <= i < s.len() && is_kept(#[trigger] s[i]) implies now.contains(
            s[i],
        ) by {
            if i < rest.len() {
                assert(rest[i] == s[i]);
                let j = choose|j: int| 0 <= j < before.len() && before[j] == rest[i];
                assert(now[j] == s[i]);
            } else {
                assert(now[now.len() - 1] == s[i]);
            }
        }
        if is_kept(s[0]) {
            if rest.len() > 0 {
                assert(rest[0] == s[0]);
                assert(now[0] == before[0]);
            }
        }
    }
}

/// What `ResourceID::parse` gives has the shape of a parsed identifier.
pub proof fn lemma_parsed_shape(source: Seq<char>)
    requires
        parsed_uri(source) is Some,
    ensures
        parsed_shape(parsed_uri(source)->0),
{
    let lower = to_ascii_lower(source);
    let text = printable(lower);
    let uri = parsed_uri(source)->0;
    let n = text.len() as int;
    lemma_printable_members(lower);
    lemma_untagged_members(text, n);
    lemma_untagged_unknown(text, n);
    assert forall|i: int| 0 <= i < uri.len() implies ascii_lower(#[trigger] uri[i]) == uri[i]
        && is_kept(uri[i]) by {
        let a = choose|a: int| 0 <= a < n && text[a] == uri[i];
        let b = choose|b: int| 0 <= b < lower.len() && lower[b] == text[a];
        assert(lower[b] == ascii_lower(source[b]));
    }
    // The first character stays the first.
    lemma_untagged_grows(text, 1, n);
    assert(untagged_upto(text, 1) == untagged_upto(text, 0).push(text[0]));
    assert(uri.take(1)[0] == text[0]);
    // A `]` is in no tag, so it stays.
    let close = choose|i: int| 0 <= i < n && text[i] == ']';
    assert(text[close] == ']');
    if in_tag(text, close) {
        lemma_tag_chars(text, close);
    }
    lemma_untagged_grows(text, close + 1, n);
    let upto = untagged_upto(text, close + 1);
    assert(upto == untagged_upto(text, close).push(']'));
    assert(uri.take(upto.len() as int)[upto.len() - 1] == ']');
    assert(uri[upto.len() - 1] == ']');
    if uri.contains('*') {
        let j = choose|j: int| 0 <= j < uri.len() && uri[j] == '*';
        let a = choose|a: int| 0 <= a < n && text[a] == uri[j];
        assert(text[a] == '*');
    }
}

} // verus!
