//! Searching and comparing bytes.

use vstd::prelude::*;
use vstd::string::StringSliceAdditionalSpecFns;

verus! {

/// The bytes of a string.
pub open spec fn text(s: &str) -> Seq<u8> {
    s.spec_bytes()
}

/// `needle` stands in `hay` at position `i`.
pub open spec fn occurs_at(hay: Seq<u8>, needle: Seq<u8>, i: int) -> bool {
    &&& 0 <= i
    &&& i + needle.len() <= hay.len()
    &&& hay.subrange(i, i + needle.len()) == needle
}

/// `i` is the first position at which `needle` stands in `hay`.
pub open spec fn first_at(hay: Seq<u8>, needle: Seq<u8>, i: int) -> bool {
    &&& occurs_at(hay, needle, i)
    &&& forall|j: int| 0 <= j < i ==> !#[trigger] occurs_at(hay, needle, j)
}

/// The first position at which `needle` stands in `hay`, if it does.
pub open spec fn first_pos(hay: Seq<u8>, needle: Seq<u8>) -> Option<int> {
    if exists|i: int| first_at(hay, needle, i) {
        Some(choose|i: int| first_at(hay, needle, i))
    } else {
        None
    }
}

/// The first position from `i` on that holds the byte `b`, or the length.
pub open spec fn next_byte(s: Seq<u8>, b: u8, i: int) -> int
    decreases s.len() - i,
{
    if i >= s.len() {
        s.len() as int
    } else if s[i] == b {
        i
    } else {
        next_byte(s, b, i + 1)
    }
}

/// The first position from `i` on whose byte is not of `class`, or the length.
pub open spec fn run_end(s: Seq<u8>, class: spec_fn(u8) -> bool, i: int) -> int
    decreases s.len() - i,
{
    if i >= s.len() || !class(s[i]) {
        i
    } else {
        run_end(s, class, i + 1)
    }
}

/// A decimal digit.
pub open spec fn is_digit(b: u8) -> bool {
    0x30 <= b <= 0x39
}

/// The number that decimal digits spell.
pub open spec fn decimal(s: Seq<u8>) -> int
    decreases s.len(),
{
    if s.len() == 0 {
        0
    } else {
        10 * decimal(s.drop_last()) + (s.last() - 0x30)
    }
}

/// `memchr::memmem::find`: the first position of the needle in the haystack, or
/// none where it does not occur.
pub assume_specification[ memchr::memmem::find ](haystack: &[u8], needle: &[u8]) -> (r: Option<usize>)
    ensures
        match r {
            Some(i) => first_at(haystack@, needle@, i as int),
            None => forall|i: int| !#[trigger] occurs_at(haystack@, needle@, i),
        },
;

/// `memchr::memchr`: the first position of a byte in the haystack, or none where
/// it does not occur.
pub assume_specification[ memchr::memchr ](needle: u8, haystack: &[u8]) -> (r: Option<usize>)
    ensures
        match r {
            Some(i) => {
                &&& i < haystack@.len()
                &&& haystack@[i as int] == needle
                &&& forall|j: int| 0 <= j < i ==> #[trigger] haystack@[j] != needle
            },
            None => forall|j: int| 0 <= j < haystack@.len() ==> #[trigger] haystack@[j] != needle,
        },
;

pub proof fn lemma_first(hay: Seq<u8>, needle: Seq<u8>, i: int)
    requires
        first_at(hay, needle, i),
    ensures
        first_pos(hay, needle) == Some(i),
{
    let j = choose|j: int| first_at(hay, needle, j);
    assert(first_at(hay, needle, j));
    if i < j {
        assert(!occurs_at(hay, needle, i));
    } else if j < i {
        assert(!occurs_at(hay, needle, j));
    }
}

pub proof fn lemma_found(hay: Seq<u8>, needle: Seq<u8>)
    ensures
        first_pos(hay, needle) matches Some(i) ==> first_at(hay, needle, i),
{
}

/// The first position of `needle` in `hay`.
pub fn find_bytes(hay: &[u8], needle: &[u8]) -> (r: Option<usize>)
    ensures
        match r {
            Some(i) => first_pos(hay@, needle@) == Some(i as int) && first_at(hay@, needle@, i as int),
            None => first_pos(hay@, needle@) is None,
        },
{
    let r = memchr::memmem::find(hay, needle);
    proof {
        if let Some(i) = r {
            lemma_first(hay@, needle@, i as int);
        } else if exists|i: int| first_at(hay@, needle@, i) {
            let i = choose|i: int| first_at(hay@, needle@, i);
            assert(occurs_at(hay@, needle@, i));
        }
    }
    r
}

proof fn lemma_next_byte(s: Seq<u8>, b: u8, i: int, at: int)
    requires
        0 <= i <= at <= s.len(),
        forall|j: int| i <= j < at ==> #[trigger] s[j] != b,
        at < s.len() ==> s[at] == b,
    ensures
        next_byte(s, b, i) == at,
    decreases at - i,
{
    if i < at {
        lemma_next_byte(s, b, i + 1, at);
    }
}

/// The first position from `from` on that holds `b`.
pub fn find_byte(s: &[u8], b: u8, from: usize) -> (r: Option<usize>)
    requires
        from <= s@.len(),
    ensures
        match r {
            Some(i) => from <= i < s@.len() && i == next_byte(s@, b, from as int),
            None => next_byte(s@, b, from as int) == s@.len(),
        },
{
    let rest = &s[from..s.len()];
    match memchr::memchr(b, rest) {
        Some(off) => {
            proof {
                assert forall|j: int| from <= j < from + off implies #[trigger] s@[j] != b by {
                    assert(rest@[j - from] == s@[j]);
                }
                assert(rest@[off as int] == s@[from + off]);
                lemma_next_byte(s@, b, from as int, from + off);
            }
            Some(from + off)
        },
        None => {
            proof {
                assert forall|j: int| from <= j < s@.len() implies #[trigger] s@[j] != b by {
                    assert(rest@[j - from] == s@[j]);
                }
                lemma_next_byte(s@, b, from as int, s@.len() as int);
            }
            None
        },
    }
}

/// Whether `word` stands in `s` at position `at`.
pub fn word_at(s: &[u8], word: &[u8], at: usize) -> (r: bool)
    ensures
        r == occurs_at(s@, word@, at as int),
{
    if at > s.len() || word.len() > s.len() - at {
        return false;
    }
    let mut i: usize = 0;
    while i < word.len()
        invariant
            i <= word@.len(),
            at + word@.len() <= s@.len() <= usize::MAX,
            forall|j: int| 0 <= j < i ==> s@[at + j] == #[trigger] word@[j],
        decreases word@.len() - i,
    {
        if s[at + i] != word[i] {
            assert(s@.subrange(at as int, at + word@.len())[i as int] != word@[i as int]);
            return false;
        }
        i += 1;
    }
    assert(s@.subrange(at as int, at + word@.len()) =~= word@);
    true
}

/// Whether two byte strings are the same.
pub fn same_bytes(a: &[u8], b: &[u8]) -> (r: bool)
    ensures
        r == (a@ == b@),
{
    let r = a.len() == b.len() && word_at(a, b, 0);
    proof {
        assert(a@.subrange(0, a@.len() as int) =~= a@);
    }
    r
}

} // verus!
