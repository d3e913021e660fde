//! First-occurrence search over sequences, and the byte searches of `memchr`.

use vstd::prelude::*;

verus! {

/// `needle` occurs in `hay` starting at index `i`.
pub open spec fn occurs_at<T>(hay: Seq<T>, needle: Seq<T>, i: int) -> bool {
    &&& 0 <= i
    &&& i + needle.len() <= hay.len()
    &&& hay.subrange(i, i + needle.len()) == needle
}

/// The first index, at `from` or after, where `needle` occurs in `hay`.
pub open spec fn find_from<T>(hay: Seq<T>, needle: Seq<T>, from: int) -> Option<int>
    decreases hay.len() + 1 - from,
{
    if from < 0 || from + needle.len() > hay.len() {
        None
    } else if occurs_at(hay, needle, from) {
        Some(from)
    } else {
        find_from(hay, needle, from + 1)
    }
}

/// The first index where `needle` occurs in `hay`, if it occurs at all.
pub open spec fn first_occurrence<T>(hay: Seq<T>, needle: Seq<T>) -> Option<int> {
    find_from(hay, needle, 0)
}

/// `r` is the index of the first occurrence of `needle` in `hay`, or `None`
/// when there is none.
pub open spec fn is_first_occurrence<T>(hay: Seq<T>, needle: Seq<T>, r: Option<int>) -> bool {
    match r {
        Some(i) => occurs_at(hay, needle, i) && forall|j: int| 0 <= j < i ==> !occurs_at(hay, needle, j),
        None => forall|j: int| !occurs_at(hay, needle, j),
    }
}

proof fn lemma_find_from<T>(hay: Seq<T>, needle: Seq<T>, from: int)
    requires
        0 <= from,
        forall|j: int| 0 <= j < from ==> !occurs_at(hay, needle, j),
    ensures
        is_first_occurrence(hay, needle, find_from(hay, needle, from)),
    decreases hay.len() + 1 - from,
{
    if from + needle.len() > hay.len() {
    } else if occurs_at(hay, needle, from) {
    } else {
        lemma_find_from(hay, needle, from + 1);
    }
}

/// The recursive definition and the characterisation agree.
pub proof fn lemma_first_occurrence<T>(hay: Seq<T>, needle: Seq<T>)
    ensures
        is_first_occurrence(hay, needle, first_occurrence(hay, needle)),
        first_occurrence(hay, needle) matches Some(i) ==> 0 <= i && i + needle.len() <= hay.len(),
{
    lemma_find_from(hay, needle, 0);
}

/// The first occurrence is unique.
pub proof fn lemma_first_occurrence_unique<T>(hay: Seq<T>, needle: Seq<T>, r: Option<int>)
    requires
        is_first_occurrence(hay, needle, r),
    ensures
        r == first_occurrence(hay, needle),
{
    lemma_first_occurrence(hay, needle);
    let f = first_occurrence(hay, needle);
    match r {
        Some(i) => {
            match f {
                Some(k) => {
                    if k < i {
                        assert(!occurs_at(hay, needle, k));
                    } else if i < k {
                        assert(!occurs_at(hay, needle, i));
                    }
                },
                None => {
                    assert(!occurs_at(hay, needle, i));
                },
            }
        },
        None => {
            match f {
                Some(k) => {
                    assert(!occurs_at(hay, needle, k));
                },
                None => {},
            }
        },
    }
}

/// Index of the first `needle` byte in `hay` (`memchr::memchr`).
/// The contract claims what the crate documents: the result is the index of
/// the first occurrence of the byte, or `None` when the byte does not occur.
#[verifier::external_body]
fn memchr_call(needle: u8, hay: &[u8]) -> (r: Option<usize>)
    ensures
        match r {
            Some(i) => i < hay@.len() && hay@[i as int] == needle && forall|j: int|
                0 <= j < i ==> hay@[j] != needle,
            None => forall|j: int| 0 <= j < hay@.len() ==> hay@[j] != needle,
        },
{
    memchr::memchr(needle, hay)
}

/// Index of the first occurrence of `needle` in `hay` (`memchr::memmem::find`).
/// The contract claims what the crate documents: the result is the index of
/// the first occurrence of the needle, or `None` when it does not occur.
#[verifier::external_body]
fn memmem_call(hay: &[u8], needle: &[u8]) -> (r: Option<usize>)
    ensures
        is_first_occurrence(
            hay@,
            needle@,
            match r {
                Some(i) => Some(i as int),
                None => None,
            },
        ),
{
    memchr::memmem::find(hay, needle)
}

/// The first index of byte `b` in `hay`.
pub fn find_byte(hay: &[u8], b: u8) -> (r: Option<usize>)
    ensures
        match r {
            Some(i) => first_occurrence(hay@, seq![b]) == Some(i as int),
            None => first_occurrence(hay@, seq![b]) is None,
        },
{
    let r = memchr_call(b, hay);
    proof {
        let ro = match r {
            Some(i) => Some(i as int),
            None => None,
        };
        assert forall|j: int| #[trigger] occurs_at(hay@, seq![b], j) <==> (0 <= j < hay@.len() && hay@[j] == b) by {
            if 0 <= j < hay@.len() {
                assert(hay@.subrange(j, j + 1) =~= seq![hay@[j]]);
                if occurs_at(hay@, seq![b], j) {
                    assert(hay@.subrange(j, j + 1)[0] == seq![b][0]);
                }
            }
        }
        assert(is_first_occurrence(hay@, seq![b], ro));
        lemma_first_occurrence_unique(hay@, seq![b], ro);
    }
    r
}

/// The first index where `needle` occurs in `hay`.
pub fn find_bytes(hay: &[u8], needle: &[u8]) -> (r: Option<usize>)
    ensures
        match r {
            Some(i) => first_occurrence(hay@, needle@) == Some(i as int),
            None => first_occurrence(hay@, needle@) is None,
        },
{
    let r = memmem_call(hay, needle);
    proof {
        let ro = match r {
            Some(i) => Some(i as int),
            None => None,
        };
        lemma_first_occurrence_unique(hay@, needle@, ro);
    }
    r
}

} // verus!
