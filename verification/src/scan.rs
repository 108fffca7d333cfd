//! Byte-level scanning: searching for a byte, splitting on a separator,
//! locating the end of a header block and dropping a trailing CR.

use vstd::prelude::*;

verus! {

/// Index of the first occurrence of `b` in `s`, if any.
pub open spec fn index_of(s: Seq<u8>, b: u8) -> Option<int>
    decreases s.len(),
{
    if s.len() == 0 {
        None
    } else if s[0] == b {
        Some(0)
    } else {
        match index_of(s.drop_first(), b) {
            Some(i) => Some(i + 1),
            None => None,
        }
    }
}

/// `index_of` finds the first occurrence, or reports that there is none.
pub proof fn lemma_index_of(s: Seq<u8>, b: u8)
    ensures
        match index_of(s, b) {
            Some(i) => 0 <= i < s.len() && s[i] == b && forall|j: int| 0 <= j < i ==> s[j] != b,
            None => forall|j: int| 0 <= j < s.len() ==> s[j] != b,
        },
    decreases s.len(),
{
    if s.len() > 0 {
        lemma_index_of(s.drop_first(), b);
        if s[0] != b {
            match index_of(s.drop_first(), b) {
                Some(i) => {
                    assert forall|j: int| 0 <= j < i + 1 implies s[j] != b by {
                        if j > 0 {
                            assert(s[j] == s.drop_first()[j - 1]);
                        }
                    }
                },
                None => {
                    assert forall|j: int| 0 <= j < s.len() implies s[j] != b by {
                        if j > 0 {
                            assert(s[j] == s.drop_first()[j - 1]);
                        }
                    }
                },
            }
        }
    }
}

/// The pieces of `s` between occurrences of `sep`, as `<[u8]>::split` yields
/// them: one more piece than there are separators.
pub open spec fn split_on(s: Seq<u8>, sep: u8) -> Seq<Seq<u8>>
    decreases s.len(),
{
    match index_of(s, sep) {
        Some(i) => {
            proof {
                lemma_index_of(s, sep);
            }
            seq![s.take(i)] + split_on(s.skip(i + 1), sep)
        },
        None => seq![s],
    }
}

/// Splitting yields at least one piece; with a separator, the first piece
/// is what precedes it and the rest split what follows it.
pub proof fn lemma_split_on(s: Seq<u8>, sep: u8)
    ensures
        split_on(s, sep).len() >= 1,
        match index_of(s, sep) {
            Some(i) => split_on(s, sep)[0] == s.take(i) && split_on(s, sep).drop_first()
                == split_on(s.skip(i + 1), sep),
            None => split_on(s, sep) == seq![s],
        },
{
    lemma_index_of(s, sep);
    match index_of(s, sep) {
        Some(i) => {
            let rest = split_on(s.skip(i + 1), sep);
            assert((seq![s.take(i)] + rest).drop_first() =~= rest);
        },
        None => {},
    }
}

/// Returns the index of the first `b` in `s`.
pub(crate) fn position(s: &[u8], b: u8) -> (res: Option<usize>)
    ensures
        match res {
            Some(i) => index_of(s@, b) == Some(i as int),
            None => index_of(s@, b) is None,
        },
{
    let mut i: usize = 0;
    while i < s.len()
        invariant
            i <= s.len(),
            forall|j: int| 0 <= j < i ==> s@[j] != b,
        decreases s.len() - i,
    {
        if s[i] == b {
            proof {
                lemma_index_of(s@, b);
            }
            return Some(i);
        }
        i = i + 1;
    }
    proof {
        lemma_index_of(s@, b);
    }
    None
}

/// Compares two byte strings.
pub(crate) fn bytes_equal(a: &[u8], b: &[u8]) -> (res: bool)
    ensures
        res == (a@ == b@),
{
    if a.len() != b.len() {
        return false;
    }
    let mut i: usize = 0;
    while i < a.len()
        invariant
            a@.len() == b@.len(),
            i <= a@.len(),
            forall|j: int| 0 <= j < i ==> a@[j] == b@[j],
        decreases a.len() - i,
    {
        if a[i] != b[i] {
            return false;
        }
        i = i + 1;
    }
    assert(a@ =~= b@);
    true
}

/// `s[i..i + 4]` is an empty line's terminator, CR LF CR LF.
pub open spec fn is_blank_line_at(s: Seq<u8>, i: int) -> bool {
    &&& 0 <= i
    &&& i + 4 <= s.len()
    &&& s[i] == 13u8
    &&& s[i + 1] == 10u8
    &&& s[i + 2] == 13u8
    &&& s[i + 3] == 10u8
}

/// The first index at or after `from` where CR LF CR LF starts.
pub open spec fn first_blank_line_from(s: Seq<u8>, from: int) -> Option<int>
    decreases s.len() - from,
{
    if from < 0 || from + 4 > s.len() {
        None
    } else if is_blank_line_at(s, from) {
        Some(from)
    } else {
        first_blank_line_from(s, from + 1)
    }
}

/// Length of the header block: everything up to and including the first
/// CR LF CR LF.
pub open spec fn header_end(s: Seq<u8>) -> Option<int> {
    match first_blank_line_from(s, 0) {
        Some(i) => Some(i + 4),
        None => None,
    }
}

/// A terminator found from `from` on starts at or after `from`, fits in `s`,
/// and is the first one there.
pub proof fn lemma_first_blank_line_from(s: Seq<u8>, from: int)
    requires
        0 <= from,
    ensures
        match first_blank_line_from(s, from) {
            Some(i) => from <= i && is_blank_line_at(s, i) && forall|j: int|
                from <= j < i ==> !is_blank_line_at(s, j),
            None => forall|j: int| from <= j ==> !is_blank_line_at(s, j),
        },
    decreases s.len() - from,
{
    if from + 4 > s.len() {
    } else if !is_blank_line_at(s, from) {
        lemma_first_blank_line_from(s, from + 1);
    }
}

/// Returns the length of the header block of `input`, if it holds one.
pub(crate) fn find_header_end(input: &[u8]) -> (res: Option<usize>)
    ensures
        match res {
            Some(e) => header_end(input@) == Some(e as int) && 4 <= e <= input@.len(),
            None => header_end(input@) is None,
        },
{
    let len = input.len();
    let mut i: usize = 0;
    while i < len && len - i >= 4
        invariant
            len == input@.len(),
            i <= len,
            first_blank_line_from(input@, 0) == first_blank_line_from(input@, i as int),
        decreases len - i,
    {
        if input[i] == 13 && input[i + 1] == 10 && input[i + 2] == 13 && input[i + 3] == 10 {
            proof {
                lemma_first_blank_line_from(input@, 0);
            }
            return Some(i + 4);
        }
        i = i + 1;
    }
    None
}

/// `line` without one trailing CR, if it ends in one.
pub open spec fn without_cr(line: Seq<u8>) -> Seq<u8> {
    if line.len() > 0 && line.last() == 13u8 {
        line.drop_last()
    } else {
        line
    }
}

/// Drops one trailing CR from `line`.
pub(crate) fn trim_cr(line: &[u8]) -> (res: &[u8])
    ensures
        res@ == without_cr(line@),
{
    let n = line.len();
    if n > 0 && line[n - 1] == 13 {
        &line[0..n - 1]
    } else {
        line
    }
}

} // verus!
