//! Byte-sequence searching used by the multipart parser.

use vstd::prelude::*;

verus! {

/// `needle` occurs in `data` starting at index `i`.
pub open spec fn occurs_at(data: Seq<u8>, i: int, needle: Seq<u8>) -> bool {
    &&& 0 <= i
    &&& i + needle.len() <= data.len()
    &&& data.subrange(i, i + needle.len()) == needle
}

/// `i` is the first index at which `needle` occurs in `data`.
pub open spec fn is_first_occurrence(data: Seq<u8>, i: int, needle: Seq<u8>) -> bool {
    &&& occurs_at(data, i, needle)
    &&& forall|j: int| 0 <= j < i ==> !#[trigger] occurs_at(data, j, needle)
}

/// Whether `needle` occurs in `data` at index `at`.
pub fn occurs_at_exec(data: &[u8], at: usize, needle: &[u8]) -> (r: bool)
    ensures
        r == occurs_at(data@, at as int, needle@),
{
    if at > data.len() || needle.len() > data.len() - at {
        return false;
    }
    let mut k: usize = 0;
    while k < needle.len()
        invariant
            at + needle.len() <= data.len(),
            k <= needle.len(),
            forall|m: int| 0 <= m < k ==> data@[at + m] == needle@[m],
        decreases needle.len() - k,
    {
        if data[at + k] != needle[k] {
            assert(data@.subrange(at as int, at + needle.len())[k as int] != needle@[k as int]);
            return false;
        }
        k += 1;
    }
    assert(data@.subrange(at as int, at + needle.len()) =~= needle@);
    true
}

/// The index of the first occurrence of `needle` in `data`.
pub fn find_subslice(data: &[u8], needle: &[u8]) -> (r: Option<usize>)
    requires
        needle.len() > 0,
    ensures
        match r {
            Some(i) => is_first_occurrence(data@, i as int, needle@),
            None => forall|j: int| !#[trigger] occurs_at(data@, j, needle@),
        },
{
    if needle.len() > data.len() {
        return None;
    }
    let last = data.len() - needle.len();
    let mut i: usize = 0;
    while i <= last
        invariant
            last + needle.len() == data.len(),
            needle.len() > 0,
            forall|j: int| 0 <= j < i ==> !#[trigger] occurs_at(data@, j, needle@),
        decreases last + 1 - i,
    {
        if occurs_at_exec(data, i, needle) {
            return Some(i);
        }
        i += 1;
    }
    None
}


/// Appends the bytes of `s` to `v`.
pub fn extend_bytes(v: &mut Vec<u8>, s: &[u8])
    ensures
        final(v)@ == old(v)@ + s@,
{
    v.extend_from_slice(s);
    assert(final(v)@ =~= old(v)@ + s@);
}

/// A copy of the bytes `s[from..to]`.
pub fn copy_range(s: &[u8], from: usize, to: usize) -> (r: Vec<u8>)
    requires
        from <= to <= s@.len(),
    ensures
        r@ == s@.subrange(from as int, to as int),
{
    let mut r: Vec<u8> = Vec::new();
    extend_bytes(&mut r, vstd::slice::slice_subrange(s, from, to));
    assert(r@ =~= s@.subrange(from as int, to as int));
    r
}


/// The index of the first occurrence of `needle` in `data` at or after `from`.
pub fn find_from(data: &[u8], needle: &[u8], from: usize) -> (r: Option<usize>)
    requires
        needle.len() > 0,
    ensures
        match r {
            Some(i) => {
                &&& from <= i
                &&& occurs_at(data@, i as int, needle@)
                &&& forall|j: int| from <= j < i ==> !#[trigger] occurs_at(data@, j, needle@)
            },
            None => forall|j: int| from <= j ==> !#[trigger] occurs_at(data@, j, needle@),
        },
{
    if needle.len() > data.len() {
        return None;
    }
    let last = data.len() - needle.len();
    let mut i: usize = from;
    while i <= last
        invariant
            last + needle.len() == data.len(),
            needle.len() > 0,
            from <= i,
            forall|j: int| from <= j < i ==> !#[trigger] occurs_at(data@, j, needle@),
        decreases last + 1 - i,
    {
        if occurs_at_exec(data, i, needle) {
            return Some(i);
        }
        i += 1;
    }
    None
}

/// The index of the first byte `b` in `s` at or after `i`.
pub open spec fn find_byte_from(s: Seq<u8>, b: u8, i: int) -> Option<int>
    decreases s.len() - i,
{
    if i < 0 || i >= s.len() {
        None
    } else if s[i] == b {
        Some(i)
    } else {
        find_byte_from(s, b, i + 1)
    }
}

proof fn lemma_find_byte_from_none(s: Seq<u8>, b: u8, i: int)
    requires
        0 <= i,
        find_byte_from(s, b, i) is None,
    ensures
        forall|j: int| i <= j < s.len() ==> s[j] != b,
    decreases s.len() - i,
{
    if i < s.len() {
        lemma_find_byte_from_none(s, b, i + 1);
    }
}

/// The index of the first byte `b` in `s`.
pub fn find_byte(s: &[u8], b: u8) -> (r: Option<usize>)
    ensures
        match r {
            Some(i) => i < s@.len() && s@[i as int] == b && find_byte_from(s@, b, 0) == Some(
                i as int,
            ),
            None => find_byte_from(s@, b, 0) is None && forall|j: int|
                0 <= j < s@.len() ==> s@[j] != b,
        },
{
    let mut i: usize = 0;
    while i < s.len()
        invariant
            i <= s@.len(),
            find_byte_from(s@, b, 0) == find_byte_from(s@, b, i as int),
        decreases s@.len() - i,
    {
        if s[i] == b {
            return Some(i);
        }
        i += 1;
    }
    proof {
        lemma_find_byte_from_none(s@, b, 0);
    }
    None
}

/// `v` without its first `n` bytes.
pub fn drop_front(v: &Vec<u8>, n: usize) -> (r: Vec<u8>)
    requires
        n <= v@.len(),
    ensures
        r@ == v@.skip(n as int),
{
    let r = copy_range(v.as_slice(), n, v.len());
    assert(r@ =~= v@.skip(n as int));
    r
}

} // verus!
