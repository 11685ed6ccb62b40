//! What is read from a list of instances, in terms of the names that were listed.

use vstd::prelude::*;

use crate::bytes::text;
use crate::lb::{
    asks_health, before_white, followed_by, for_health, have_paths, next_comma, past_white, path_error, paths_from, trimmed,
    white_space, Upstream, UpstreamError,
};

verus! {

/// An entry of a list: a name, with white space around it.
pub struct Listed {
    pub left: Seq<char>,
    pub name: Seq<char>,
    pub right: Seq<char>,
}

/// White space and nothing else.
pub open spec fn all_white(s: Seq<char>) -> bool {
    forall|i: int| 0 <= i < s.len() ==> white_space(#[trigger] s[i])
}

/// A name without commas and without white space at its ends.
pub open spec fn is_name(s: Seq<char>) -> bool {
    &&& !s.contains(',')
    &&& s.len() > 0 ==> !white_space(s[0]) && !white_space(s[s.len() - 1])
}

/// An entry that can stand in a list. Its name may be empty.
pub open spec fn is_listed(e: Listed) -> bool {
    all_white(e.left) && is_name(e.name) && all_white(e.right)
}

/// How an entry is spelled.
pub open spec fn entry_text(e: Listed) -> Seq<char> {
    e.left + e.name + e.right
}

/// How a list is spelled from entry `i` on: its entries, with commas between them.
pub open spec fn list_text(list: Seq<Listed>, i: int) -> Seq<char>
    decreases list.len() - i,
{
    if i >= list.len() {
        Seq::empty()
    } else if i == list.len() - 1 {
        entry_text(list[i])
    } else {
        entry_text(list[i]) + seq![','] + list_text(list, i + 1)
    }
}

/// The control path of the instance called `name`.
pub open spec fn control_path(name: Seq<char>) -> Seq<char> {
    name + ".ctrl"@
}

/// The names of the entries from `i` on, but for the empty ones.
pub open spec fn names_from(list: Seq<Listed>, i: int) -> Seq<Seq<char>>
    decreases list.len() - i,
{
    if i >= list.len() {
        Seq::empty()
    } else if list[i].name.len() == 0 {
        names_from(list, i + 1)
    } else {
        seq![list[i].name] + names_from(list, i + 1)
    }
}

/// The path of a socket: no zero byte in it, and with one behind it no more than the
/// 108 bytes that an address can take.
pub open spec fn can_be_addressed(path: Seq<char>) -> bool {
    &&& !path.contains('\0')
    &&& vstd::utf8::encode_utf8(path).len() <= 107
}

proof fn lemma_next_comma(s: Seq<char>, i: int, end: int)
    requires
        0 <= i <= end <= s.len(),
        forall|j: int| i <= j < end ==> #[trigger] s[j] != ',',
        end < s.len() ==> s[end] == ',',
    ensures
        next_comma(s, i) == end,
    decreases end - i,
{
    if i < end {
        lemma_next_comma(s, i + 1, end);
    }
}

proof fn lemma_past_white(s: Seq<char>, i: int, end: int)
    requires
        0 <= i <= end <= s.len(),
        forall|j: int| i <= j < end ==> white_space(#[trigger] s[j]),
        end < s.len() ==> !white_space(s[end]),
    ensures
        past_white(s, i) == end,
    decreases end - i,
{
    if i < end {
        lemma_past_white(s, i + 1, end);
    }
}

proof fn lemma_before_white(s: Seq<char>, i: int, j: int, end: int)
    requires
        0 <= i <= end <= j <= s.len(),
        forall|k: int| end <= k < j ==> white_space(#[trigger] s[k]),
        end == i || !white_space(s[end - 1]),
    ensures
        before_white(s, i, j) == end,
    decreases j - end,
{
    if end < j {
        assert(white_space(s[j - 1]));
        lemma_before_white(s, i, j - 1, end);
    }
}

#[verifier::rlimit(50)]
proof fn lemma_entry_is_trimmed(e: Listed)
    requires
        is_listed(e),
    ensures
        trimmed(entry_text(e)) == e.name,
{
    let s = entry_text(e);
    let a = e.left.len() as int;
    let b = a + e.name.len();
    if e.name.len() > 0 {
        assert(s[a] == e.name[0]);
        assert(s[b - 1] == e.name[e.name.len() - 1]);
        assert forall|j: int| 0 <= j < a implies white_space(#[trigger] s[j]) by {
            assert(s[j] == e.left[j]);
        }
        assert forall|j: int| b <= j < s.len() implies white_space(#[trigger] s[j]) by {
            assert(s[j] == e.right[j - b]);
        }
        lemma_past_white(s, 0, a);
        lemma_before_white(s, a, s.len() as int, b);
        assert(s.subrange(a, b) =~= e.name);
    } else {
        assert forall|j: int| 0 <= j < s.len() implies white_space(#[trigger] s[j]) by {
            if j < a {
                assert(s[j] == e.left[j]);
            } else {
                assert(s[j] == e.right[j - a]);
            }
        }
        lemma_past_white(s, 0, s.len() as int);
        assert(s.subrange(s.len() as int, s.len() as int) =~= e.name);
    }
}

proof fn lemma_entry_has_no_comma(e: Listed)
    requires
        is_listed(e),
    ensures
        forall|j: int| 0 <= j < entry_text(e).len() ==> #[trigger] entry_text(e)[j] != ',',
{
    let s = entry_text(e);
    assert(!white_space(','));
    assert forall|j: int| 0 <= j < s.len() implies #[trigger] s[j] != ',' by {
        let a = e.left.len() as int;
        let b = a + e.name.len();
        if j < a {
            assert(s[j] == e.left[j]);
        } else if j < b {
            assert(s[j] == e.name[j - a]);
            assert(e.name.contains(e.name[j - a]));
        } else {
            assert(s[j] == e.right[j - b]);
        }
    }
}

/// What is read from the entries from `i` on.
spec fn read_from(list: Seq<Listed>, i: int) -> Result<Seq<Seq<char>>, UpstreamError>
    decreases list.len() - i,
{
    if i >= list.len() {
        Ok(Seq::empty())
    } else if list[i].name.len() == 0 {
        read_from(list, i + 1)
    } else {
        match path_error(control_path(list[i].name)) {
            Some(e) => Err(e),
            None => followed_by(seq![control_path(list[i].name)], read_from(list, i + 1)),
        }
    }
}

#[verifier::rlimit(50)]
proof fn lemma_list_is_read(s: Seq<char>, at: int, list: Seq<Listed>, i: int)
    requires
        0 <= i < list.len(),
        forall|j: int| 0 <= j < list.len() ==> is_listed(#[trigger] list[j]),
        0 <= at <= s.len(),
        s.skip(at) == list_text(list, i),
    ensures
        paths_from(s, at) == read_from(list, i),
    decreases list.len() - i,
{
    let e = list[i];
    let t = entry_text(e);
    let end = at + t.len();
    let rest = s.skip(at);
    lemma_entry_has_no_comma(e);
    lemma_entry_is_trimmed(e);
    assert(rest.len() == s.len() - at);
    assert(rest == list_text(list, i));
    assert(rest.len() >= t.len());
    assert(rest.take(t.len() as int) =~= t);
    assert forall|j: int| at <= j < end implies #[trigger] s[j] != ',' by {
        assert(s[j] == rest[j - at]);
        assert(rest.take(t.len() as int)[j - at] == rest[j - at]);
        assert(rest[j - at] == t[j - at]);
    }
    assert(s.subrange(at, end) =~= t);
    if i == list.len() - 1 {
        assert(end == s.len());
        lemma_next_comma(s, at, end);
        assert(read_from(list, i + 1) == Ok::<Seq<Seq<char>>, UpstreamError>(Seq::empty()));
    } else {
        assert(rest[t.len() as int] == ',');
        assert(s[end] == ',');
        lemma_next_comma(s, at, end);
        assert(s.skip(end + 1) =~= rest.skip(t.len() as int + 1));
        assert(rest.skip(t.len() as int + 1) =~= list_text(list, i + 1));
        lemma_list_is_read(s, end + 1, list, i + 1);
    }
}

#[verifier::rlimit(50)]
proof fn lemma_good_names(list: Seq<Listed>, i: int)
    requires
        0 <= i,
        forall|k: int|
            0 <= k < names_from(list, i).len() ==> can_be_addressed(
                control_path(#[trigger] names_from(list, i)[k]),
            ),
    ensures
        read_from(list, i) matches Ok(paths) && paths == names_from(list, i).map_values(
            |name: Seq<char>| control_path(name),
        ),
    decreases list.len() - i,
{
    let names = names_from(list, i);
    let f = |name: Seq<char>| control_path(name);
    if i < list.len() {
        let rest = names_from(list, i + 1);
        if list[i].name.len() == 0 {
            lemma_good_names(list, i + 1);
        } else {
            assert(names[0] == list[i].name);
            assert forall|k: int| 0 <= k < rest.len() implies can_be_addressed(
                control_path(#[trigger] rest[k]),
            ) by {
                assert(names[k + 1] == rest[k]);
            }
            lemma_good_names(list, i + 1);
            assert(can_be_addressed(control_path(names[0])));
            assert(seq![control_path(names[0])] + rest.map_values(f) =~= names.map_values(f));
        }
    } else {
        assert(names.map_values(f) =~= Seq::empty());
    }
}

/// A list gives the control paths of the instances that it names, in the order in which
/// it names them: each is the name with `.ctrl` behind it, which is where the instance of
/// that name listens. White space around the names and empty entries change nothing.
pub proof fn law_list_gives_the_control_paths(list: Seq<Listed>)
    requires
        list.len() > 0,
        forall|j: int| 0 <= j < list.len() ==> is_listed(#[trigger] list[j]),
        forall|k: int|
            0 <= k < names_from(list, 0).len() ==> can_be_addressed(
                control_path(#[trigger] names_from(list, 0)[k]),
            ),
    ensures
        paths_from(list_text(list, 0), 0) matches Ok(paths) && {
            &&& paths.len() == names_from(list, 0).len()
            &&& forall|k: int|
                0 <= k < paths.len() ==> #[trigger] paths[k] == names_from(list, 0)[k] + ".ctrl"@
        },
{
    let s = list_text(list, 0);
    assert(s.skip(0) =~= s);
    lemma_list_is_read(s, 0, list, 0);
    lemma_good_names(list, 0);
}

/// The instances that a list gives: one for each of the names, with its control path and
/// the length of its address, which is that of the path with two bytes in front.
pub proof fn law_list_gives_the_instances(list: Seq<Listed>, out: Seq<Upstream>)
    requires
        list.len() > 0,
        forall|j: int| 0 <= j < list.len() ==> is_listed(#[trigger] list[j]),
        forall|k: int|
            0 <= k < names_from(list, 0).len() ==> can_be_addressed(
                control_path(#[trigger] names_from(list, 0)[k]),
            ),
        paths_from(list_text(list, 0), 0) matches Ok(paths) && have_paths(out, paths),
    ensures
        out.len() == names_from(list, 0).len(),
        forall|k: int|
            0 <= k < out.len() ==> (#[trigger] out[k]).path@ == names_from(list, 0)[k] + ".ctrl"@,
        forall|k: int|
            0 <= k < out.len() ==> (#[trigger] out[k]).addr_len == 2 + vstd::utf8::encode_utf8(
                out[k].path@,
            ).len(),
{
    law_list_gives_the_control_paths(list);
}

/// A single name gives its own control path and no other.
pub proof fn law_one_name_gives_one_control_path(name: Seq<char>)
    requires
        is_name(name),
        name.len() > 0,
        can_be_addressed(control_path(name)),
    ensures
        paths_from(name, 0) == Ok::<Seq<Seq<char>>, UpstreamError>(seq![name + ".ctrl"@]),
{
    let e = Listed { left: Seq::empty(), name, right: Seq::empty() };
    let list = seq![e];
    assert(entry_text(e) =~= name);
    assert(list_text(list, 0) == name);
    assert(list[0] == e);
    assert(names_from(list, 1) =~= Seq::empty());
    assert(names_from(list, 0) =~= seq![name]);
    law_list_gives_the_control_paths(list);
    if let Ok(paths) = paths_from(name, 0) {
        assert(paths =~= seq![name + ".ctrl"@]);
    }
}

proof fn lemma_first_bad(list: Seq<Listed>, i: int, bad: int)
    requires
        0 <= i <= bad < list.len(),
        list[bad].name.len() > 0,
        !can_be_addressed(control_path(list[bad].name)),
        forall|j: int|
            i <= j < bad && (#[trigger] list[j]).name.len() > 0 ==> can_be_addressed(
                control_path(list[j].name),
            ),
    ensures
        read_from(list, i) == Err::<Seq<Seq<char>>, UpstreamError>(
            if control_path(list[bad].name).contains('\0') {
                UpstreamError::InvalidPath
            } else {
                UpstreamError::TooLong
            },
        ),
    decreases bad - i,
{
    if i < bad {
        lemma_first_bad(list, i + 1, bad);
        assert(list[i].name.len() > 0 ==> can_be_addressed(control_path(list[i].name)));
    }
}

/// A list is refused for the first of its names that cannot be addressed: with a zero
/// byte in it, or else too long.
pub proof fn law_list_is_refused_for_its_first_bad_name(list: Seq<Listed>, bad: int)
    requires
        0 <= bad < list.len(),
        forall|j: int| 0 <= j < list.len() ==> is_listed(#[trigger] list[j]),
        list[bad].name.len() > 0,
        !can_be_addressed(control_path(list[bad].name)),
        forall|j: int|
            0 <= j < bad && (#[trigger] list[j]).name.len() > 0 ==> can_be_addressed(
                control_path(list[j].name),
            ),
    ensures
        paths_from(list_text(list, 0), 0) == Err::<Seq<Seq<char>>, UpstreamError>(
            if control_path(list[bad].name).contains('\0') {
                UpstreamError::InvalidPath
            } else {
                UpstreamError::TooLong
            },
        ),
{
    let s = list_text(list, 0);
    assert(s.skip(0) =~= s);
    lemma_list_is_read(s, 0, list, 0);
    lemma_first_bad(list, 0, bad);
}

/// A connection asks for the health of a path exactly where its input starts with `GET`, a
/// blank, that path, and a blank or a query behind it. Without a path there are no health
/// checks.
pub proof fn law_health_is_asked_by_its_path(data: Seq<u8>, path: Seq<u8>)
    ensures
        asks_health(data, path) <==> exists|end: u8, rest: Seq<u8>|
            (end == 0x20 || end == 0x3F) && data == #[trigger] health_request(path, end, rest),
        for_health(data, path) <==> path.len() > 0 && asks_health(data, path),
{
    reveal_strlit("GET ");
    assert("GET ".is_ascii());
    assert(text("GET ") =~= seq![0x47u8, 0x45, 0x54, 0x20]);
    let n = path.len() as int;
    if asks_health(data, path) {
        let end = data[4 + n];
        let rest = data.skip(5 + n);
        assert(data =~= health_request(path, end, rest)) by {
            assert(data =~= data.subrange(0, 4) + data.subrange(4, 4 + n) + seq![end] + rest);
        }
    }
    if exists|end: u8, rest: Seq<u8>|
        (end == 0x20 || end == 0x3F) && data == #[trigger] health_request(path, end, rest) {
        let (end, rest) = choose|end: u8, rest: Seq<u8>|
            (end == 0x20 || end == 0x3F) && data == #[trigger] health_request(path, end, rest);
        assert(data.subrange(0, 4) =~= seq![0x47u8, 0x45, 0x54, 0x20]);
        assert(data.subrange(4, 4 + n) =~= path);
        assert(data[4 + n] == end);
    }
}

/// A request for `path`, with `end` behind the path.
pub open spec fn health_request(path: Seq<u8>, end: u8, rest: Seq<u8>) -> Seq<u8> {
    seq![0x47u8, 0x45, 0x54, 0x20] + path + seq![end] + rest
}

} // verus!
