//! A transaction that is written down as JSON is read as itself.
//!
//! [`Json`] is what can be written down, and [`spell`] how it is written.

use vstd::prelude::*;

use crate::bytes::{decimal, first_at, occurs_at, text};
use crate::json::{payload, LastTxView, PayloadView};
use crate::members::{
    are_entries, are_parts, are_pieces, are_string_parts, array_says, describes, entries_text,
    has_member, has_sections, is_array, is_decimal_of, is_gap, is_number_of, is_object, is_string,
    law_transaction_is_what_is_described, lists, member_at, opens_array, parts_text, pieces_text,
    quoted, says_count, says_customer, says_flag, says_last, says_merchant, says_number,
    says_object, says_string, says_terminal, says_transaction, string_text, DecimalParts, Piece,
    StringPart,
};
use crate::server::{step_of, StepView};
use crate::wire::{
    are_digits, are_other_lines, digits_of, gives_length, is_headed, law_digits_spell_their_number,
    law_posted_body_is_found, law_requests_are_answered, lines_text, path_is_over, starts_with,
};

verus! {

/// A JSON value.
pub enum Json {
    /// A number, `true`, `false` or `null`.
    Word(Seq<u8>),
    /// A string.
    Text(Seq<u8>),
    /// An array of strings.
    List(Seq<Seq<u8>>),
    /// An object: the names of its members, and their values.
    Object(Seq<Seq<u8>>, Seq<Json>),
}

/// The strings of an array from `i` on, with commas between them.
pub open spec fn strings_text(ids: Seq<Seq<u8>>, i: int) -> Seq<u8>
    decreases ids.len() - i,
{
    if i >= ids.len() {
        Seq::empty()
    } else {
        (if i > 0 {
            seq![0x2Cu8]
        } else {
            Seq::empty()
        }) + quoted(ids[i]) + strings_text(ids, i + 1)
    }
}

/// How a value is written.
pub open spec fn spell(j: Json) -> Seq<u8>
    decreases j, 0int,
{
    match j {
        Json::Word(w) => w,
        Json::Text(x) => quoted(x),
        Json::List(ids) => seq![0x5Bu8] + strings_text(ids, 0) + seq![0x5Du8],
        Json::Object(names, values) => seq![0x7Bu8] + members_text(names, values, 0) + seq![0x7Du8],
    }
}

/// How the members of an object from `i` on are written: each is its name, a colon and
/// its value, with commas between them.
pub open spec fn members_text(names: Seq<Seq<u8>>, values: Seq<Json>, i: int) -> Seq<u8>
    decreases values, values.len() - i,
{
    if i < 0 || i >= values.len() {
        Seq::empty()
    } else {
        quoted(names[i]) + seq![0x3Au8] + spell(values[i]) + if i + 1 < values.len() {
            seq![0x2Cu8] + members_text(names, values, i + 1)
        } else {
            Seq::empty()
        }
    }
}

/// A byte that numbers and the words of JSON can hold.
pub open spec fn in_word(b: u8) -> bool {
    0x30 <= b <= 0x39 || b == 0x2B || b == 0x2D || b == 0x2E || 0x41 <= b <= 0x5A || 0x61 <= b <= 0x7A
}

/// Neither quotes nor backslashes.
pub open spec fn is_plain(x: Seq<u8>) -> bool {
    !x.contains(0x22) && !x.contains(0x5C)
}

/// The value can be written down as it is: its words are words, and its strings need no
/// backslash.
pub open spec fn is_fine(j: Json) -> bool
    decreases j, 0int,
{
    match j {
        Json::Word(w) => w.len() > 0 && forall|i: int| 0 <= i < w.len() ==> in_word(#[trigger] w[i]),
        Json::Text(x) => is_plain(x),
        Json::List(ids) => forall|i: int| 0 <= i < ids.len() ==> is_plain(#[trigger] ids[i]),
        Json::Object(names, values) => names.len() == values.len() && are_fine(names, values, 0),
    }
}

/// The members of an object from `i` on can be written down as they are.
pub open spec fn are_fine(names: Seq<Seq<u8>>, values: Seq<Json>, i: int) -> bool
    decreases values, values.len() - i,
{
    if i < 0 || i >= values.len() {
        true
    } else {
        is_plain(names[i]) && is_fine(values[i]) && are_fine(names, values, i + 1)
    }
}

/// A string or a name somewhere in the value is `name`.
pub open spec fn mentions(j: Json, name: Seq<u8>) -> bool
    decreases j, 0int,
{
    match j {
        Json::Word(_) => false,
        Json::Text(x) => x == name,
        Json::List(ids) => ids.contains(name),
        Json::Object(names, values) => members_mention(names, values, 0, values.len() as int, name),
    }
}

/// A string or a name somewhere in the members from `i` up to `end` is `name`.
pub open spec fn members_mention(
    names: Seq<Seq<u8>>,
    values: Seq<Json>,
    i: int,
    end: int,
    name: Seq<u8>,
) -> bool
    decreases values, values.len() - i,
{
    if i < 0 || i >= values.len() || i >= end {
        false
    } else {
        names[i] == name || mentions(values[i], name) || members_mention(
            names,
            values,
            i + 1,
            end,
            name,
        )
    }
}

/// The object has a member called `name` with this value, at place `i`. The name does not
/// come up in the members in front of it.
pub open spec fn stands_at(
    names: Seq<Seq<u8>>,
    values: Seq<Json>,
    i: int,
    name: Seq<u8>,
    value: Json,
) -> bool {
    &&& 0 <= i < values.len()
    &&& names[i] == name
    &&& values[i] == value
    &&& !members_mention(names, values, 0, i, name)
}

/// The object has a member called `name` with this value.
pub open spec fn holds(
    names: Seq<Seq<u8>>,
    values: Seq<Json>,
    name: Seq<u8>,
    value: Json,
) -> bool {
    exists|i: int| stands_at(names, values, i, name, value)
}

/// A name of letters, digits and underscores.
pub open spec fn is_key(name: Seq<u8>) -> bool {
    forall|i: int|
        0 <= i < name.len() ==> 0x30 <= #[trigger] name[i] <= 0x39 || 0x41 <= name[i] <= 0x5A || 0x61
            <= name[i] <= 0x7A || name[i] == 0x5F
}

/// A byte that stands between the parts of a JSON text.
pub open spec fn is_mark(c: u8) -> bool {
    c == 0x2C || c == 0x3A || c == 0x5B || c == 0x5D || c == 0x7B || c == 0x7D
}

/// `name` is quoted nowhere in `s`.
pub open spec fn is_unquoted(s: Seq<u8>, name: Seq<u8>) -> bool {
    forall|p: int| !#[trigger] occurs_at(s, quoted(name), p)
}

proof fn lemma_at_mark(a: Seq<u8>, c: u8, b: Seq<u8>, name: Seq<u8>, p: int)
    requires
        is_mark(c),
        is_key(name),
        occurs_at(a + seq![c] + b, quoted(name), p),
    ensures
        occurs_at(a, quoted(name), p) || (p >= a.len() + 1 && occurs_at(
            b,
            quoted(name),
            p - a.len() - 1,
        )),
{
    let s = a + seq![c] + b;
    let key = quoted(name);
    let n = key.len() as int;
    let m = a.len() as int;
    let w = s.subrange(p, p + n);
    if p + n <= m {
        assert(a.subrange(p, p + n) =~= w);
    } else if p > m {
        assert(b.subrange(p - m - 1, p - m - 1 + n) =~= w);
    } else {
        assert(w[m - p] == c);
        assert(key[m - p] == c);
        if 0 < m - p < n - 1 {
            assert(name[m - p - 1] == c);
        }
        assert(false);
    }
}

proof fn lemma_around_mark(a: Seq<u8>, c: u8, b: Seq<u8>, name: Seq<u8>)
    requires
        is_mark(c),
        is_key(name),
        is_unquoted(a, name),
        is_unquoted(b, name),
    ensures
        is_unquoted(a + seq![c] + b, name),
{
    assert forall|p: int| !#[trigger] occurs_at(a + seq![c] + b, quoted(name), p) by {
        if occurs_at(a + seq![c] + b, quoted(name), p) {
            lemma_at_mark(a, c, b, name, p);
        }
    }
}

proof fn lemma_empty_is_unquoted(name: Seq<u8>)
    ensures
        is_unquoted(Seq::empty(), name),
{
}

proof fn lemma_word_is_unquoted(w: Seq<u8>, name: Seq<u8>)
    requires
        forall|i: int| 0 <= i < w.len() ==> in_word(#[trigger] w[i]),
    ensures
        is_unquoted(w, name),
{
    assert forall|p: int| !#[trigger] occurs_at(w, quoted(name), p) by {
        if occurs_at(w, quoted(name), p) {
            assert(w.subrange(p, p + quoted(name).len())[0] == w[p]);
            assert(in_word(w[p]));
        }
    }
}

proof fn lemma_other_is_unquoted(x: Seq<u8>, name: Seq<u8>)
    requires
        is_plain(x),
        x != name,
    ensures
        is_unquoted(quoted(x), name),
{
    let s = quoted(x);
    let key = quoted(name);
    let n = key.len() as int;
    assert forall|p: int| !#[trigger] occurs_at(s, key, p) by {
        if occurs_at(s, key, p) {
            let w = s.subrange(p, p + n);
            assert(w[0] == s[p]);
            assert(w[n - 1] == s[p + n - 1]);
            if p > 0 {
                assert(s[p] == x[p - 1]);
                assert(x.contains(x[p - 1]));
            }
            if p + n < s.len() {
                assert(s[n - 1] == x[n - 2]);
                assert(x.contains(x[n - 2]));
            }
            assert(x =~= name) by {
                assert forall|i: int| 0 <= i < x.len() implies x[i] == #[trigger] name[i] by {
                    assert(w[i + 1] == s[i + 1]);
                    assert(key[i + 1] == name[i]);
                }
            }
        }
    }
}

#[verifier::rlimit(50)]
proof fn lemma_strings_are_unquoted(ids: Seq<Seq<u8>>, i: int, name: Seq<u8>)
    requires
        0 <= i,
        is_key(name),
        forall|j: int| 0 <= j < ids.len() ==> is_plain(#[trigger] ids[j]),
        !ids.contains(name),
    ensures
        is_unquoted(strings_text(ids, i), name),
        i == 0 ==> is_unquoted(strings_text(ids, 0), name),
    decreases ids.len() - i,
{
    let none: Seq<u8> = Seq::empty();
    lemma_empty_is_unquoted(name);
    if i < ids.len() {
        let q = quoted(ids[i]);
        let more = strings_text(ids, i + 1);
        assert(ids.contains(ids[i]));
        lemma_other_is_unquoted(ids[i], name);
        lemma_strings_are_unquoted(ids, i + 1, name);
        let first = if i + 1 < ids.len() {
            let tail = quoted(ids[i + 1]) + strings_text(ids, i + 2);
            assert(more =~= seq![0x2Cu8] + tail);
            assert(is_unquoted(tail, name)) by {
                assert forall|p: int| !#[trigger] occurs_at(tail, quoted(name), p) by {
                    if occurs_at(tail, quoted(name), p) {
                        let n = quoted(name).len();
                        assert(more.subrange(p + 1, p + 1 + n) =~= tail.subrange(p, p + n));
                        assert(occurs_at(more, quoted(name), p + 1));
                    }
                }
            }
            lemma_around_mark(q, 0x2C, tail, name);
            assert(q + more =~= q + seq![0x2Cu8] + tail);
            q + more
        } else {
            assert(q + more =~= q);
            q + more
        };
        assert(is_unquoted(first, name));
        if i > 0 {
            lemma_around_mark(none, 0x2C, first, name);
            assert(strings_text(ids, i) =~= none + seq![0x2Cu8] + first);
        } else {
            assert(strings_text(ids, i) =~= first);
        }
    }
}

#[verifier::rlimit(50)]
proof fn lemma_value_is_unquoted(j: Json, name: Seq<u8>)
    requires
        is_fine(j),
        is_key(name),
        !mentions(j, name),
    ensures
        is_unquoted(spell(j), name),
    decreases j, 0int,
{
    let none: Seq<u8> = Seq::empty();
    lemma_empty_is_unquoted(name);
    match j {
        Json::Word(w) => {
            lemma_word_is_unquoted(w, name);
        },
        Json::Text(x) => {
            lemma_other_is_unquoted(x, name);
        },
        Json::List(ids) => {
            lemma_strings_are_unquoted(ids, 0, name);
            let inner = strings_text(ids, 0);
            lemma_around_mark(none, 0x5B, inner, name);
            lemma_around_mark(none + seq![0x5Bu8] + inner, 0x5D, none, name);
            assert(spell(j) =~= none + seq![0x5Bu8] + inner + seq![0x5Du8] + none);
        },
        Json::Object(names, values) => {
            lemma_members_are_unquoted(names, values, 0, name);
            let inner = members_text(names, values, 0);
            lemma_around_mark(none, 0x7B, inner, name);
            lemma_around_mark(none + seq![0x7Bu8] + inner, 0x7D, none, name);
            assert(spell(j) =~= none + seq![0x7Bu8] + inner + seq![0x7Du8] + none);
        },
    }
}

#[verifier::rlimit(50)]
proof fn lemma_members_are_unquoted(names: Seq<Seq<u8>>, values: Seq<Json>, i: int, name: Seq<u8>)
    requires
        0 <= i,
        are_fine(names, values, i),
        is_key(name),
        !members_mention(names, values, i, values.len() as int, name),
    ensures
        is_unquoted(members_text(names, values, i), name),
    decreases values, values.len() - i,
{
    lemma_empty_is_unquoted(name);
    if i < values.len() {
        let q = quoted(names[i]);
        let v = spell(values[i]);
        lemma_other_is_unquoted(names[i], name);
        lemma_value_is_unquoted(values[i], name);
        lemma_around_mark(q, 0x3A, v, name);
        lemma_members_are_unquoted(names, values, i + 1, name);
        let more = members_text(names, values, i + 1);
        if i + 1 < values.len() {
            lemma_around_mark(q + seq![0x3Au8] + v, 0x2C, more, name);
            assert(members_text(names, values, i) =~= q + seq![0x3Au8] + v + seq![0x2Cu8] + more);
        } else {
            assert(members_text(names, values, i) =~= q + seq![0x3Au8] + v);
        }
    }
}

/// What stands behind the value of member `i`.
spec fn behind(names: Seq<Seq<u8>>, values: Seq<Json>, i: int) -> Seq<u8> {
    if i + 1 < values.len() {
        seq![0x2Cu8] + members_text(names, values, i + 1)
    } else {
        Seq::empty()
    }
}

proof fn lemma_starts_visible(j: Json)
    requires
        is_fine(j),
    ensures
        spell(j).len() > 0,
        spell(j)[0] != 0x20 && spell(j)[0] != 0x09 && spell(j)[0] != 0x0A && spell(j)[0] != 0x0D,
{
    if let Json::Word(w) = j {
        assert(in_word(w[0]));
    }
}

proof fn lemma_fine_member(names: Seq<Seq<u8>>, values: Seq<Json>, k: int, i: int)
    requires
        0 <= k <= i < values.len(),
        are_fine(names, values, k),
    ensures
        is_plain(names[i]),
        is_fine(values[i]),
        are_fine(names, values, i),
    decreases i - k,
{
    if k < i {
        lemma_fine_member(names, values, k + 1, i);
    }
}

#[verifier::rlimit(50)]
proof fn lemma_member_stands(
    names: Seq<Seq<u8>>,
    values: Seq<Json>,
    k: int,
    i: int,
    name: Seq<u8>,
) -> (front: Seq<u8>)
    requires
        0 <= k <= i < values.len(),
        are_fine(names, values, k),
        is_key(name),
        names[i] == name,
        !members_mention(names, values, k, i, name),
    ensures
        member_at(
            members_text(names, values, k),
            name,
            front,
            Seq::empty(),
            Seq::empty(),
            spell(values[i]) + behind(names, values, i),
        ),
    decreases i - k,
{
    let none: Seq<u8> = Seq::empty();
    let s = members_text(names, values, k);
    let rest = spell(values[i]) + behind(names, values, i);
    let key = quoted(name);
    lemma_fine_member(names, values, k, i);
    lemma_starts_visible(values[i]);
    assert(rest[0] == spell(values[i])[0]);
    assert(rest.take(1)[0] == rest[0]);
    if k == i {
        assert(s =~= none + key + none + seq![0x3Au8] + none + rest);
        assert(s.subrange(0, key.len() as int) =~= key);
        assert(first_at(s, key, 0));
        assert(member_at(s, name, none, none, none, rest));
        none
    } else {
        let after = members_text(names, values, k + 1);
        let front1 = lemma_member_stands(names, values, k + 1, i, name);
        let q = quoted(names[k]);
        let v = spell(values[k]);
        let mine = q + seq![0x3Au8] + v;
        lemma_fine_member(names, values, k, k);
        lemma_other_is_unquoted(names[k], name);
        lemma_value_is_unquoted(values[k], name);
        lemma_around_mark(q, 0x3A, v, name);
        assert(s =~= mine + seq![0x2Cu8] + after);
        let front = mine + seq![0x2Cu8] + front1;
        assert(s =~= front + key + none + seq![0x3Au8] + none + rest);
        let pos = front.len() as int;
        assert(s.subrange(pos, pos + key.len()) =~= key);
        assert forall|p: int| 0 <= p < pos implies !#[trigger] occurs_at(s, key, p) by {
            if occurs_at(s, key, p) {
                lemma_at_mark(mine, 0x2C, after, name, p);
                assert(!occurs_at(mine, key, p));
                assert(occurs_at(after, key, p - mine.len() - 1));
            }
        }
        assert(first_at(s, key, pos));
        assert(member_at(s, name, front, none, none, rest));
        front
    }
}

/// A member of a written object stands in its text.
#[verifier::rlimit(50)]
proof fn lemma_holds(names: Seq<Seq<u8>>, values: Seq<Json>, name: Seq<u8>, value: Json) -> (more: Seq<
    u8,
>)
    requires
        are_fine(names, values, 0),
        is_key(name),
        holds(names, values, name, value),
    ensures
        is_fine(value),
        has_member(members_text(names, values, 0), name, spell(value) + more),
        more.len() == 0 || more[0] == 0x2C,
        has_member(
            spell(Json::Object(names, values)),
            name,
            spell(value) + more + seq![0x7Du8],
        ),
{
    let none: Seq<u8> = Seq::empty();
    let i = choose|i: int| stands_at(names, values, i, name, value);
    let front = lemma_member_stands(names, values, 0, i, name);
    lemma_fine_member(names, values, 0, i);
    lemma_starts_visible(value);
    let more = behind(names, values, i);
    let inner = members_text(names, values, 0);
    let rest = spell(value) + more;
    let key = quoted(name);
    let s = spell(Json::Object(names, values));
    let lead = seq![0x7Bu8] + front;
    let all = rest + seq![0x7Du8];
    assert(member_at(inner, name, front, none, none, rest));
    assert(s =~= lead + key + none + seq![0x3Au8] + none + all);
    assert(all[0] == rest[0]);
    assert(rest[0] == spell(value)[0]);
    assert(all.take(1)[0] == all[0]);
    let pos = lead.len() as int;
    assert(s.subrange(pos, pos + key.len()) =~= key);
    assert forall|p: int| 0 <= p < pos implies !#[trigger] occurs_at(s, key, p) by {
        if occurs_at(s, key, p) {
            assert(s =~= none + seq![0x7Bu8] + (inner + seq![0x7Du8]));
            lemma_at_mark(none, 0x7B, inner + seq![0x7Du8], name, p);
            lemma_empty_is_unquoted(name);
            assert(!occurs_at(none, key, p));
            assert(inner + seq![0x7Du8] =~= inner + seq![0x7Du8] + none);
            lemma_at_mark(inner, 0x7D, none, name, p - 1);
            assert(!occurs_at(none, key, p - 1 - inner.len() - 1));
            assert(occurs_at(inner, key, p - 1));
        }
    }
    assert(first_at(s, key, pos));
    assert(member_at(s, name, lead, none, none, all));
    assert(rest + seq![0x7Du8] == spell(value) + more + seq![0x7Du8]);
    more
}

/// The pieces of a word or a gap, byte by byte.
spec fn bytes_pieces(w: Seq<u8>) -> Seq<Piece> {
    Seq::new(w.len(), |i: int| Piece::Byte(w[i]))
}

/// The piece of a string.
spec fn string_piece(x: Seq<u8>) -> Seq<Piece> {
    seq![Piece::Text(Seq::new(x.len(), |i: int| StringPart::Plain(x[i])))]
}

proof fn lemma_pieces_join(a: Seq<Piece>, b: Seq<Piece>)
    ensures
        pieces_text(a + b) == pieces_text(a) + pieces_text(b),
        are_pieces(a) && are_pieces(b) ==> are_pieces(a + b),
    decreases a.len(),
{
    if a.len() == 0 {
        assert(a + b =~= b);
        assert(pieces_text(a) + pieces_text(b) =~= pieces_text(b));
    } else {
        lemma_pieces_join(a.drop_first(), b);
        assert((a + b).drop_first() =~= a.drop_first() + b);
        assert((a + b)[0] == a[0]);
        assert(pieces_text(a + b) =~= pieces_text(a) + pieces_text(b));
    }
}

proof fn lemma_bytes_pieces(w: Seq<u8>)
    requires
        forall|i: int| 0 <= i < w.len() ==> #[trigger] w[i] != 0x22 && w[i] != 0x7B && w[i] != 0x7D,
    ensures
        pieces_text(bytes_pieces(w)) == w,
        are_pieces(bytes_pieces(w)),
    decreases w.len(),
{
    let ps = bytes_pieces(w);
    if w.len() > 0 {
        let rest = w.skip(1);
        assert forall|i: int| 0 <= i < rest.len() implies #[trigger] rest[i] != 0x22 && rest[i] != 0x7B
            && rest[i] != 0x7D by {
            assert(rest[i] == w[i + 1]);
        }
        lemma_bytes_pieces(rest);
        assert(ps.drop_first() =~= bytes_pieces(rest));
        assert(w =~= seq![w[0]] + rest);
    } else {
        assert(pieces_text(ps) =~= w);
    }
}

proof fn lemma_string_parts(x: Seq<u8>)
    requires
        is_plain(x),
    ensures
        string_text(Seq::new(x.len(), |i: int| StringPart::Plain(x[i]))) == x,
        are_string_parts(Seq::new(x.len(), |i: int| StringPart::Plain(x[i]))),
    decreases x.len(),
{
    let parts = Seq::new(x.len(), |i: int| StringPart::Plain(x[i]));
    assert forall|i: int| 0 <= i < parts.len() implies ((#[trigger] parts[i])
        matches StringPart::Plain(b) ==> b != 0x22 && b != 0x5C) by {
        assert(x.contains(x[i]));
    }
    if x.len() > 0 {
        let rest = x.skip(1);
        assert(is_plain(rest)) by {
            if rest.contains(0x22) {
                let i = choose|i: int| 0 <= i < rest.len() && rest[i] == 0x22;
                assert(x[i + 1] == 0x22);
            }
            if rest.contains(0x5C) {
                let i = choose|i: int| 0 <= i < rest.len() && rest[i] == 0x5C;
                assert(x[i + 1] == 0x5C);
            }
        }
        lemma_string_parts(rest);
        assert(parts.drop_first() =~= Seq::new(rest.len(), |i: int| StringPart::Plain(rest[i])));
        assert(x =~= seq![x[0]] + rest);
    } else {
        assert(string_text(parts) =~= x);
    }
}

proof fn lemma_string_piece(x: Seq<u8>)
    requires
        is_plain(x),
    ensures
        pieces_text(string_piece(x)) == quoted(x),
        are_pieces(string_piece(x)),
{
    lemma_string_parts(x);
    let ps = string_piece(x);
    assert(ps.drop_first() =~= Seq::empty());
    assert(pieces_text(ps.drop_first()) =~= Seq::empty());
    assert(are_pieces(ps.drop_first()));
    assert(pieces_text(ps) =~= quoted(x));
}

proof fn lemma_strings_pieces(ids: Seq<Seq<u8>>, i: int) -> (ps: Seq<Piece>)
    requires
        0 <= i,
        forall|j: int| 0 <= j < ids.len() ==> is_plain(#[trigger] ids[j]),
    ensures
        are_pieces(ps),
        pieces_text(ps) == strings_text(ids, i),
    decreases ids.len() - i,
{
    if i >= ids.len() {
        let ps: Seq<Piece> = Seq::empty();
        assert(pieces_text(ps) =~= strings_text(ids, i));
        ps
    } else {
        let gap = if i > 0 {
            seq![0x2Cu8]
        } else {
            Seq::empty()
        };
        let rest = lemma_strings_pieces(ids, i + 1);
        lemma_bytes_pieces(gap);
        lemma_string_piece(ids[i]);
        let a = bytes_pieces(gap) + string_piece(ids[i]);
        lemma_pieces_join(bytes_pieces(gap), string_piece(ids[i]));
        lemma_pieces_join(a, rest);
        a + rest
    }
}

#[verifier::rlimit(50)]
proof fn lemma_value_pieces(j: Json) -> (ps: Seq<Piece>)
    requires
        is_fine(j),
    ensures
        are_pieces(ps),
        pieces_text(ps) == spell(j),
    decreases j, 0int,
{
    match j {
        Json::Word(w) => {
            assert forall|i: int| 0 <= i < w.len() implies #[trigger] w[i] != 0x22 && w[i] != 0x7B
                && w[i] != 0x7D by {
                assert(in_word(w[i]));
            }
            lemma_bytes_pieces(w);
            bytes_pieces(w)
        },
        Json::Text(x) => {
            lemma_string_piece(x);
            string_piece(x)
        },
        Json::List(ids) => {
            let inner = lemma_strings_pieces(ids, 0);
            lemma_bytes_pieces(seq![0x5Bu8]);
            lemma_bytes_pieces(seq![0x5Du8]);
            let a = bytes_pieces(seq![0x5Bu8]) + inner;
            lemma_pieces_join(bytes_pieces(seq![0x5Bu8]), inner);
            lemma_pieces_join(a, bytes_pieces(seq![0x5Du8]));
            a + bytes_pieces(seq![0x5Du8])
        },
        Json::Object(names, values) => {
            let inner = lemma_members_pieces(names, values, 0);
            let ps = seq![Piece::Group(inner)];
            assert(ps.drop_first() =~= Seq::empty());
            assert(pieces_text(ps.drop_first()) =~= Seq::empty());
            assert(are_pieces(ps.drop_first()));
            assert(pieces_text(ps) =~= spell(j));
            ps
        },
    }
}

#[verifier::rlimit(50)]
proof fn lemma_members_pieces(names: Seq<Seq<u8>>, values: Seq<Json>, i: int) -> (ps: Seq<Piece>)
    requires
        0 <= i,
        are_fine(names, values, i),
    ensures
        are_pieces(ps),
        pieces_text(ps) == members_text(names, values, i),
    decreases values, values.len() - i,
{
    if i >= values.len() {
        let ps: Seq<Piece> = Seq::empty();
        assert(pieces_text(ps) =~= members_text(names, values, i));
        ps
    } else {
        let v = lemma_value_pieces(values[i]);
        lemma_string_piece(names[i]);
        lemma_bytes_pieces(seq![0x3Au8]);
        let q = string_piece(names[i]);
        let colon = bytes_pieces(seq![0x3Au8]);
        lemma_pieces_join(q, colon);
        lemma_pieces_join(q + colon, v);
        let mine = q + colon + v;
        if i + 1 < values.len() {
            let rest = lemma_members_pieces(names, values, i + 1);
            let comma = bytes_pieces(seq![0x2Cu8]);
            lemma_bytes_pieces(seq![0x2Cu8]);
            lemma_pieces_join(comma, rest);
            lemma_pieces_join(mine, comma + rest);
            mine + (comma + rest)
        } else {
            assert(pieces_text(mine) =~= members_text(names, values, i));
            mine
        }
    }
}

proof fn lemma_prefix(a: Seq<u8>, b: Seq<u8>)
    ensures
        starts_with(a + b, a),
{
    assert((a + b).take(a.len() as int) =~= a);
}

/// The members that a transaction is made of.
pub struct Written {
    pub names: Seq<Seq<u8>>,
    pub values: Seq<Json>,
}

/// How the members are written, without the braces.
pub open spec fn inner_text(o: Written) -> Seq<u8> {
    members_text(o.names, o.values, 0)
}

/// The object that the members make.
pub open spec fn object_of(o: Written) -> Json {
    Json::Object(o.names, o.values)
}

proof fn lemma_says_object(o: Written, name: Seq<u8>, inner: Written) -> (ps: Seq<Piece>)
    requires
        is_fine(object_of(o)),
        is_key(name),
        holds(o.names, o.values, name, object_of(inner)),
    ensures
        says_object(spell(object_of(o)), name, ps),
        pieces_text(ps) == inner_text(inner),
        is_fine(object_of(inner)),
{
    let more = lemma_holds(o.names, o.values, name, object_of(inner));
    let ps = lemma_members_pieces(inner.names, inner.values, 0);
    let rest = spell(object_of(inner)) + more + seq![0x7Du8];
    assert(rest =~= spell(object_of(inner)) + (more + seq![0x7Du8]));
    lemma_prefix(spell(object_of(inner)), more + seq![0x7Du8]);
    assert(is_object(rest, ps));
    ps
}

proof fn lemma_says_string(o: Written, name: Seq<u8>, x: Seq<u8>)
    requires
        is_fine(object_of(o)),
        is_key(name),
        holds(o.names, o.values, name, Json::Text(x)),
    ensures
        says_string(inner_text(o), name, x),
{
    let more = lemma_holds(o.names, o.values, name, Json::Text(x));
    let rest = quoted(x) + more;
    lemma_prefix(quoted(x), more);
    assert(is_string(rest, x));
}

proof fn lemma_says_number(o: Written, name: Seq<u8>, d: DecimalParts)
    requires
        is_fine(object_of(o)),
        is_key(name),
        are_parts(d),
        holds(o.names, o.values, name, Json::Word(parts_text(d))),
    ensures
        says_number(inner_text(o), name, parts_text(d)),
{
    let t = parts_text(d);
    let more = lemma_holds(o.names, o.values, name, Json::Word(t));
    let rest = t + more;
    lemma_prefix(t, more);
    if more.len() > 0 {
        assert(rest[t.len() as int] == more[0]);
    }
    assert(is_decimal_of(rest, t));
}

proof fn lemma_says_count(o: Written, name: Seq<u8>, digits: Seq<u8>)
    requires
        is_fine(object_of(o)),
        is_key(name),
        are_digits(digits),
        decimal(digits) <= u32::MAX,
        holds(o.names, o.values, name, Json::Word(digits)),
    ensures
        says_count(inner_text(o), name, decimal(digits)),
{
    let more = lemma_holds(o.names, o.values, name, Json::Word(digits));
    let rest = digits + more;
    lemma_prefix(digits, more);
    if more.len() > 0 {
        assert(rest[digits.len() as int] == more[0]);
    }
    assert(is_number_of(rest, digits));
}

/// The word of a flag.
pub open spec fn flag_word(set: bool) -> Seq<u8> {
    if set {
        seq![0x74u8, 0x72, 0x75, 0x65]
    } else {
        seq![0x66u8, 0x61, 0x6C, 0x73, 0x65]
    }
}

proof fn lemma_says_flag(o: Written, name: Seq<u8>, set: bool)
    requires
        is_fine(object_of(o)),
        is_key(name),
        holds(o.names, o.values, name, Json::Word(flag_word(set))),
    ensures
        says_flag(inner_text(o), name, set),
{
    let more = lemma_holds(o.names, o.values, name, Json::Word(flag_word(set)));
    lemma_prefix(flag_word(set), more);
    assert(has_member(inner_text(o), name, flag_word(set) + more));
}

spec fn gaps_of(ids: Seq<Seq<u8>>) -> Seq<Seq<u8>> {
    Seq::new(
        ids.len(),
        |i: int|
            if i > 0 {
                seq![0x2Cu8]
            } else {
                Seq::empty()
            },
    )
}

proof fn lemma_list_entries(ids: Seq<Seq<u8>>, i: int, end: Seq<u8>)
    requires
        0 <= i,
    ensures
        entries_text(ids, gaps_of(ids), i, end) == strings_text(ids, i) + end,
    decreases ids.len() - i,
{
    if i < ids.len() {
        lemma_list_entries(ids, i + 1, end);
        assert(entries_text(ids, gaps_of(ids), i, end) =~= strings_text(ids, i) + end);
    } else {
        assert(strings_text(ids, i) + end =~= end);
    }
}

#[verifier::rlimit(50)]
proof fn lemma_says_list(o: Written, ids: Seq<Seq<u8>>, id: Seq<u8>)
    requires
        is_fine(object_of(o)),
        is_key(text("known_merchants")),
        holds(o.names, o.values, text("known_merchants"), Json::List(ids)),
    ensures
        lists(inner_text(o), id, ids.contains(id)),
{
    let name = text("known_merchants");
    let none: Seq<u8> = Seq::empty();
    let more = lemma_holds(o.names, o.values, name, Json::List(ids));
    let rest = spell(Json::List(ids)) + more;
    let gaps = gaps_of(ids);
    let body = strings_text(ids, 0);
    lemma_list_entries(ids, 0, none + seq![0x5Du8]);
    lemma_list_entries(ids, 0, none);
    assert forall|i: int| 0 <= i < ids.len() implies !(#[trigger] ids[i]).contains(0x22) by {
        assert(is_plain(ids[i]));
    }
    assert forall|i: int| 0 <= i < gaps.len() implies is_gap(#[trigger] gaps[i]) by {}
    assert(are_entries(ids, gaps));
    assert(none + seq![0x5Du8] =~= seq![0x5Du8]);
    assert(body + none =~= body);
    let whole = seq![0x5Bu8] + (body + seq![0x5Du8]);
    assert(rest =~= whole + more);
    lemma_prefix(whole, more);
    assert(rest =~= (seq![0x5Bu8] + body) + (seq![0x5Du8] + more));
    lemma_prefix(seq![0x5Bu8] + body, seq![0x5Du8] + more);
    assert(is_array(rest, ids, gaps, none));
    assert(opens_array(rest, ids, gaps));
    assert(array_says(rest, ids, gaps, none, id, ids.contains(id)));
}

/// The values of a transaction, as they are written down.
pub struct Fields {
    pub amount: DecimalParts,
    pub installments: Seq<u8>,
    pub requested_at: Seq<u8>,
    pub customer_avg_amount: DecimalParts,
    pub tx_count_24h: Seq<u8>,
    pub known_merchants: Seq<Seq<u8>>,
    pub merchant_id: Seq<u8>,
    pub merchant_mcc: Seq<u8>,
    pub merchant_avg_amount: DecimalParts,
    pub is_online: bool,
    pub card_present: bool,
    pub km_from_home: DecimalParts,
    /// When and how far away the transaction before took place.
    pub last: Option<(Seq<u8>, DecimalParts)>,
}

/// The numbers of the transaction are numbers, and its counts are in range.
pub open spec fn are_fields(f: Fields) -> bool {
    &&& are_parts(f.amount)
    &&& are_digits(f.installments) && decimal(f.installments) <= u32::MAX
    &&& are_parts(f.customer_avg_amount)
    &&& are_digits(f.tx_count_24h) && decimal(f.tx_count_24h) <= u32::MAX
    &&& are_parts(f.merchant_avg_amount)
    &&& are_parts(f.km_from_home)
    &&& f.last matches Some(l) ==> are_parts(l.1)
}

/// The objects of a body.
pub struct Sections {
    pub transaction: Written,
    pub customer: Written,
    pub merchant: Written,
    pub terminal: Written,
    pub last: Written,
}

/// The body `o` holds the sections `p`, and these hold the fields `f`, each under its own
/// name, in any order and among any others.
pub open spec fn is_written(o: Written, p: Sections, f: Fields) -> bool {
    &&& is_fine(object_of(o))
    &&& holds(o.names, o.values, text("transaction"), object_of(p.transaction))
    &&& holds(o.names, o.values, text("customer"), object_of(p.customer))
    &&& holds(o.names, o.values, text("merchant"), object_of(p.merchant))
    &&& holds(o.names, o.values, text("terminal"), object_of(p.terminal))
    &&& has_word(p.transaction, text("amount"), parts_text(f.amount))
    &&& has_word(p.transaction, text("installments"), f.installments)
    &&& has_text(p.transaction, text("requested_at"), f.requested_at)
    &&& has_word(p.customer, text("avg_amount"), parts_text(f.customer_avg_amount))
    &&& has_word(p.customer, text("tx_count_24h"), f.tx_count_24h)
    &&& holds(
        p.customer.names,
        p.customer.values,
        text("known_merchants"),
        Json::List(f.known_merchants),
    )
    &&& has_text(p.merchant, text("id"), f.merchant_id)
    &&& has_text(p.merchant, text("mcc"), f.merchant_mcc)
    &&& has_word(p.merchant, text("avg_amount"), parts_text(f.merchant_avg_amount))
    &&& has_word(p.terminal, text("is_online"), flag_word(f.is_online))
    &&& has_word(p.terminal, text("card_present"), flag_word(f.card_present))
    &&& has_word(p.terminal, text("km_from_home"), parts_text(f.km_from_home))
    &&& match f.last {
        Some((timestamp, km)) => {
            &&& holds(o.names, o.values, text("last_transaction"), object_of(p.last))
            &&& has_text(p.last, text("timestamp"), timestamp)
            &&& has_word(p.last, text("km_from_current"), parts_text(km))
        },
        None => has_word(o, text("last_transaction"), seq![0x6Eu8, 0x75, 0x6C, 0x6C]),
    }
}

/// The object has a member called `name`, which is the word `w`.
pub open spec fn has_word(o: Written, name: Seq<u8>, w: Seq<u8>) -> bool {
    holds(o.names, o.values, name, Json::Word(w))
}

/// The object has a member called `name`, which is the string `x`.
pub open spec fn has_text(o: Written, name: Seq<u8>, x: Seq<u8>) -> bool {
    holds(o.names, o.values, name, Json::Text(x))
}

/// What is to be read of the fields: each of them as it is, and of the known merchants
/// whether the merchant is among them.
pub open spec fn view_of(f: Fields) -> PayloadView {
    PayloadView {
        amount: parts_text(f.amount),
        installments: decimal(f.installments),
        requested_at: f.requested_at,
        customer_avg_amount: parts_text(f.customer_avg_amount),
        tx_count_24h: decimal(f.tx_count_24h),
        merchant_id_in_known: f.known_merchants.contains(f.merchant_id),
        merchant_mcc: f.merchant_mcc,
        merchant_avg_amount: parts_text(f.merchant_avg_amount),
        is_online: f.is_online,
        card_present: f.card_present,
        km_from_home: parts_text(f.km_from_home),
        last_tx: match f.last {
            Some((timestamp, km)) => Some(
                LastTxView { timestamp, km_from_current: parts_text(km) },
            ),
            None => None,
        },
    }
}

proof fn lemma_keys_a()
    ensures
        is_key(text("transaction")),
        is_key(text("customer")),
        is_key(text("merchant")),
        is_key(text("terminal")),
        is_key(text("last_transaction")),
        is_key(text("timestamp")),
        is_key(text("km_from_current")),
{
    reveal_strlit("transaction");
    reveal_strlit("customer");
    reveal_strlit("merchant");
    reveal_strlit("terminal");
    reveal_strlit("last_transaction");
    reveal_strlit("timestamp");
    reveal_strlit("km_from_current");
    assert("transaction".is_ascii());
    assert("customer".is_ascii());
    assert("merchant".is_ascii());
    assert("terminal".is_ascii());
    assert("last_transaction".is_ascii());
    assert("timestamp".is_ascii());
    assert("km_from_current".is_ascii());
}

proof fn lemma_keys_b()
    ensures
        is_key(text("amount")),
        is_key(text("installments")),
        is_key(text("requested_at")),
        is_key(text("avg_amount")),
        is_key(text("tx_count_24h")),
        is_key(text("known_merchants")),
{
    reveal_strlit("amount");
    reveal_strlit("installments");
    reveal_strlit("requested_at");
    reveal_strlit("avg_amount");
    reveal_strlit("tx_count_24h");
    reveal_strlit("known_merchants");
    assert("amount".is_ascii());
    assert("installments".is_ascii());
    assert("requested_at".is_ascii());
    assert("avg_amount".is_ascii());
    assert("tx_count_24h".is_ascii());
    assert("known_merchants".is_ascii());
}

proof fn lemma_keys_c()
    ensures
        is_key(text("id")),
        is_key(text("mcc")),
        is_key(text("is_online")),
        is_key(text("card_present")),
        is_key(text("km_from_home")),
{
    reveal_strlit("id");
    reveal_strlit("mcc");
    reveal_strlit("is_online");
    reveal_strlit("card_present");
    reveal_strlit("km_from_home");
    assert("id".is_ascii());
    assert("mcc".is_ascii());
    assert("is_online".is_ascii());
    assert("card_present".is_ascii());
    assert("km_from_home".is_ascii());
}

proof fn lemma_last_is_said(o: Written, p: Sections, f: Fields)
    requires
        is_written(o, p, f),
        are_fields(f),
    ensures
        says_last(spell(object_of(o)), view_of(f).last_tx),
{
    lemma_keys_a();
    let body = spell(object_of(o));
    match f.last {
        Some((timestamp, km)) => {
            let ps = lemma_says_object(o, text("last_transaction"), p.last);
            lemma_says_string(p.last, text("timestamp"), timestamp);
            lemma_says_number(p.last, text("km_from_current"), km);
            assert(says_object(body, text("last_transaction"), ps));
        },
        None => {
            let null = seq![0x6Eu8, 0x75, 0x6C, 0x6C];
            let more = lemma_holds(o.names, o.values, text("last_transaction"), Json::Word(null));
            let rest = null + more + seq![0x7Du8];
            assert(rest =~= null + (more + seq![0x7Du8]));
            lemma_prefix(null, more + seq![0x7Du8]);
            assert(has_member(body, text("last_transaction"), rest));
        },
    }
}

/// A transaction that is written down is read as itself: whatever the values of its
/// fields are, and in whatever order the members come and whatever others stand among
/// them, reading the text gives those values back. A name may not come up in the text in
/// front of the member that it names.
#[verifier::rlimit(50)]
pub proof fn law_written_transaction_is_read(o: Written, p: Sections, f: Fields)
    requires
        is_written(o, p, f),
        are_fields(f),
    ensures
        payload(spell(object_of(o))) == Some(view_of(f)),
{
    lemma_keys_a();
    lemma_keys_b();
    lemma_keys_c();
    let body = spell(object_of(o));
    let v = view_of(f);
    let t = lemma_says_object(o, text("transaction"), p.transaction);
    let c = lemma_says_object(o, text("customer"), p.customer);
    let m = lemma_says_object(o, text("merchant"), p.merchant);
    let k = lemma_says_object(o, text("terminal"), p.terminal);
    assert(has_sections(body, t, c, m, k));
    lemma_says_number(p.transaction, text("amount"), f.amount);
    lemma_says_count(p.transaction, text("installments"), f.installments);
    lemma_says_string(p.transaction, text("requested_at"), f.requested_at);
    assert(says_transaction(pieces_text(t), v));
    lemma_says_number(p.customer, text("avg_amount"), f.customer_avg_amount);
    lemma_says_count(p.customer, text("tx_count_24h"), f.tx_count_24h);
    lemma_says_list(p.customer, f.known_merchants, f.merchant_id);
    assert(says_customer(pieces_text(c), f.merchant_id, v));
    lemma_says_string(p.merchant, text("id"), f.merchant_id);
    lemma_says_string(p.merchant, text("mcc"), f.merchant_mcc);
    lemma_says_number(p.merchant, text("avg_amount"), f.merchant_avg_amount);
    assert(says_merchant(pieces_text(m), f.merchant_id, v));
    lemma_says_flag(p.terminal, text("is_online"), f.is_online);
    lemma_says_flag(p.terminal, text("card_present"), f.card_present);
    lemma_says_number(p.terminal, text("km_from_home"), f.km_from_home);
    assert(says_terminal(pieces_text(k), v));
    lemma_last_is_said(o, p, f);
    assert(describes(body, v));
    law_transaction_is_what_is_described(body, v);
}

/// A transaction that is written down and posted is scored as itself: whatever header lines
/// stand in front of the one that gives the length of its text, and whatever input follows
/// it, what is scored has the values that were written, and what is dropped from the input
/// ends with the text.
#[verifier::rlimit(50)]
pub proof fn law_posted_transaction_is_scored(
    lines: Seq<Seq<u8>>,
    l: Seq<u8>,
    blanks: int,
    more: Seq<u8>,
    o: Written,
    p: Sections,
    f: Fields,
    buf: Seq<u8>,
)
    requires
        buf.len() <= usize::MAX,
        is_headed(buf, lines_text(lines, 0, l), spell(object_of(o)) + more),
        starts_with(lines_text(lines, 0, l), text("POST /fraud-score")),
        path_is_over(lines_text(lines, 0, l), 17),
        are_other_lines(lines),
        gives_length(l, blanks, digits_of(spell(object_of(o)).len() as int)),
        is_written(o, p, f),
        are_fields(f),
    ensures
        step_of(buf) == (StepView::Score {
            payload: view_of(f),
            consumed: lines_text(lines, 0, l).len() as int + 4 + spell(object_of(o)).len() as int,
        }),
{
    let body = spell(object_of(o));
    let n = body.len() as int;
    let after = body + more;
    let start = lines_text(lines, 0, l).len() + 4;
    law_digits_spell_their_number(n);
    assert(buf.len() == start + after.len());
    law_posted_body_is_found(buf, lines, l, blanks, digits_of(n), after);
    assert(after.take(n) =~= body);
    law_written_transaction_is_read(o, p, f);
    law_requests_are_answered(buf);
}

} // verus!
