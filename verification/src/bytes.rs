//! Byte constants and searches over byte slices.
use vstd::prelude::*;

verus! {

pub const TAB: u8 = 0x09;

pub const LF: u8 = 0x0a;

pub const FF: u8 = 0x0c;

pub const CR: u8 = 0x0d;

pub const SPACE: u8 = 0x20;

pub const QUOTE: u8 = 0x22;

pub const PLUS: u8 = 0x2b;

pub const COMMA: u8 = 0x2c;

pub const MINUS: u8 = 0x2d;

pub const DOT: u8 = 0x2e;

pub const DIGIT_0: u8 = 0x30;

pub const DIGIT_9: u8 = 0x39;

pub const COLON: u8 = 0x3a;

pub const UPPER_A: u8 = 0x41;

pub const UPPER_E: u8 = 0x45;

pub const UPPER_T: u8 = 0x54;

pub const UPPER_Z: u8 = 0x5a;

pub const OPEN_BRACKET: u8 = 0x5b;

pub const BACKSLASH: u8 = 0x5c;

pub const CLOSE_BRACKET: u8 = 0x5d;

pub const LOWER_E: u8 = 0x65;

pub const LOWER_F: u8 = 0x66;

pub const LOWER_N: u8 = 0x6e;

pub const LOWER_T: u8 = 0x74;

pub const OPEN_BRACE: u8 = 0x7b;

pub const CLOSE_BRACE: u8 = 0x7d;

pub open spec fn is_digit(b: u8) -> bool {
    DIGIT_0 <= b <= DIGIT_9
}

/// Whether `b` is an ASCII decimal digit.
pub fn digit(b: u8) -> (r: bool)
    ensures
        r == is_digit(b),
{
    DIGIT_0 <= b && b <= DIGIT_9
}

/// Whether the two slices hold the same bytes.
pub fn bytes_eq(a: &[u8], b: &[u8]) -> (r: bool)
    ensures
        r == (a@ == b@),
{
    if a.len() != b.len() {
        return false;
    }
    let mut i: usize = 0;
    while i < a.len()
        invariant
            i <= a@.len(),
            a@.len() == b@.len(),
            forall|k: int| 0 <= k < i ==> a@[k] == b@[k],
        decreases a@.len() - i,
    {
        if a[i] != b[i] {
            return false;
        }
        i += 1;
    }
    assert(a@ =~= b@);
    true
}

/// `needle` stands in `haystack` at `at`.
pub open spec fn occurs_at(haystack: Seq<u8>, needle: Seq<u8>, at: int) -> bool {
    &&& 0 <= at
    &&& at + needle.len() <= haystack.len()
    &&& haystack.subrange(at, at + needle.len()) == needle
}

/// Whether `needle` stands in `haystack` at `at`.
pub fn occurs(haystack: &[u8], needle: &[u8], at: usize) -> (r: bool)
    ensures
        r == occurs_at(haystack@, needle@, at as int),
{
    if at > haystack.len() || haystack.len() - at < needle.len() {
        return false;
    }
    bytes_eq(&haystack[at..at + needle.len()], needle)
}

/// `r` is the first position from which `needle` stands in `haystack`, if there is one.
pub open spec fn is_first_occurrence(
    haystack: Seq<u8>,
    needle: Seq<u8>,
    r: Option<usize>,
) -> bool {
    match r {
        Some(i) => {
            &&& occurs_at(haystack, needle, i as int)
            &&& forall|k: int| 0 <= k < i ==> !occurs_at(haystack, needle, k)
        },
        None => forall|k: int| !occurs_at(haystack, needle, k),
    }
}

/// The first position at which `needle`, which is not empty, stands in `haystack`.
pub fn find_bytes(haystack: &[u8], needle: &[u8]) -> (r: Option<usize>)
    requires
        needle@.len() > 0,
    ensures
        is_first_occurrence(haystack@, needle@, r),
{
    let mut i: usize = 0;
    while i < haystack.len()
        invariant
            i <= haystack@.len(),
            forall|k: int| 0 <= k < i ==> !occurs_at(haystack@, needle@, k),
        decreases haystack@.len() - i,
    {
        if occurs(haystack, needle, i) {
            return Some(i);
        }
        i += 1;
    }
    None
}

/// The first position from `from` on at which `needle` stands in `haystack`.
pub open spec fn position_of(haystack: Seq<u8>, needle: Seq<u8>, from: int) -> Option<int>
    decreases haystack.len() + 1 - from,
{
    if from < 0 || from > haystack.len() {
        None
    } else if occurs_at(haystack, needle, from) {
        Some(from)
    } else {
        position_of(haystack, needle, from + 1)
    }
}

/// What comes first is what is found first.
pub proof fn lemma_position_of(haystack: Seq<u8>, needle: Seq<u8>, from: int, r: Option<usize>)
    requires
        is_first_occurrence(haystack, needle, r),
        0 <= from,
        r matches Some(i) ==> from <= i,
    ensures
        position_of(haystack, needle, from) == match r {
            Some(i) => Some(i as int),
            None => None,
        },
    decreases haystack.len() + 1 - from,
{
    if from <= haystack.len() && !occurs_at(haystack, needle, from) {
        lemma_position_of(haystack, needle, from + 1, r);
    }
}

/// More bytes behind do not change where `needle` is found first.
pub proof fn lemma_position_stable(
    haystack: Seq<u8>,
    more: Seq<u8>,
    needle: Seq<u8>,
    from: int,
)
    requires
        0 <= from,
        position_of(haystack, needle, from) is Some,
    ensures
        position_of(haystack + more, needle, from) == position_of(haystack, needle, from),
        from <= position_of(haystack, needle, from)->0,
        occurs_at(haystack, needle, position_of(haystack, needle, from)->0),
    decreases haystack.len() + 1 - from,
{
    if from + needle.len() <= haystack.len() {
        assert((haystack + more).subrange(from, from + needle.len()) =~= haystack.subrange(
            from,
            from + needle.len(),
        ));
    }
    if !occurs_at(haystack, needle, from) {
        lemma_position_stable(haystack, more, needle, from + 1);
        let at = position_of(haystack, needle, from)->0;
        assert(occurs_at(haystack, needle, at));
        assert(from + needle.len() <= haystack.len());
    }
}

/// Where `needle` is found first does not depend on what follows it.
pub proof fn lemma_position_prefix(haystack: Seq<u8>, cut: int, needle: Seq<u8>, from: int)
    requires
        0 <= from,
        position_of(haystack, needle, from) is Some,
        position_of(haystack, needle, from)->0 + needle.len() <= cut <= haystack.len(),
    ensures
        position_of(haystack.take(cut), needle, from) == position_of(haystack, needle, from),
    decreases haystack.len() + 1 - from,
{
    lemma_position_stable(haystack, Seq::empty(), needle, from);
    assert(haystack.take(cut).subrange(from, from + needle.len()) =~= haystack.subrange(
        from,
        from + needle.len(),
    ));
    if !occurs_at(haystack, needle, from) {
        lemma_position_prefix(haystack, cut, needle, from + 1);
    }
}

/// The first position of `byte` from `from` on.
pub open spec fn position_of_byte(buf: Seq<u8>, byte: u8, from: int) -> Option<int>
    decreases buf.len() - from,
{
    if from < 0 || from >= buf.len() {
        None
    } else if buf[from] == byte {
        Some(from)
    } else {
        position_of_byte(buf, byte, from + 1)
    }
}

/// What comes first behind `from` is what is found first from there.
pub proof fn lemma_position_of_byte(buf: Seq<u8>, byte: u8, from: int, at: int, r: Option<usize>)
    requires
        0 <= from <= at <= buf.len(),
        is_first_byte(buf.skip(from), byte, r),
        r matches Some(i) ==> at <= from + i,
    ensures
        position_of_byte(buf, byte, at) == match r {
            Some(i) => Some(from + i),
            None => None,
        },
    decreases buf.len() - at,
{
    if at < buf.len() {
        assert(buf.skip(from)[at - from] == buf[at]);
        if buf[at] == byte {
            assert(buf.skip(from).contains(byte));
        } else {
            lemma_position_of_byte(buf, byte, from, at + 1, r);
        }
    }
}

/// `r` is the first position of `byte` in `buf`, if it is there at all.
pub open spec fn is_first_byte(buf: Seq<u8>, byte: u8, r: Option<usize>) -> bool {
    match r {
        Some(i) => {
            &&& i < buf.len()
            &&& buf[i as int] == byte
            &&& forall|k: int| 0 <= k < i ==> buf[k] != byte
        },
        None => !buf.contains(byte),
    }
}

/// The first position of `byte` in `buf`.
pub fn memchr(buf: &[u8], byte: u8) -> (r: Option<usize>)
    ensures
        is_first_byte(buf@, byte, r),
{
    let mut i: usize = 0;
    while i < buf.len()
        invariant
            i <= buf@.len(),
            forall|k: int| 0 <= k < i ==> buf@[k] != byte,
        decreases buf@.len() - i,
    {
        if buf[i] == byte {
            return Some(i);
        }
        i += 1;
    }
    None
}

} // verus!
