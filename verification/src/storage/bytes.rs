use vstd::prelude::*;
use vstd::slice::*;

verus! {

/// `needle` occurs in `hay` starting at index `at`.
pub open spec fn occurs_at(hay: Seq<u8>, needle: Seq<u8>, at: int) -> bool {
    &&& 0 <= at
    &&& at + needle.len() <= hay.len()
    &&& hay.subrange(at, at + needle.len()) == needle
}

/// `needle` occurs somewhere in `hay`.
pub open spec fn contains_bytes(hay: Seq<u8>, needle: Seq<u8>) -> bool {
    exists|at: int| occurs_at(hay, needle, at)
}

/// Index of the first byte equal to `byte` at or after `from`, or the length when there is none.
pub open spec fn position_of(hay: Seq<u8>, byte: u8, from: int) -> int
    decreases hay.len() - from,
{
    if from < 0 || from >= hay.len() {
        hay.len() as int
    } else if hay[from] == byte {
        from
    } else {
        position_of(hay, byte, from + 1)
    }
}

/// Where `position_of` points: at the first `byte` from `from` on, or at the end.
pub(crate) proof fn lemma_position_of_bounds(hay: Seq<u8>, byte: u8, from: int)
    requires
        0 <= from <= hay.len(),
    ensures
        from <= position_of(hay, byte, from) <= hay.len(),
        position_of(hay, byte, from) < hay.len() ==> hay[position_of(hay, byte, from)] == byte,
        forall|k: int| from <= k < position_of(hay, byte, from) ==> hay[k] != byte,
    decreases hay.len() - from,
{
    if from < hay.len() && hay[from] != byte {
        lemma_position_of_bounds(hay, byte, from + 1);
    }
}

/// Does `buf` hold `needle` at index `at`?
pub fn matches_at(buf: &[u8], at: usize, needle: &[u8]) -> (found: bool)
    ensures
        found == occurs_at(buf@, needle@, at as int),
{
    if needle.len() > buf.len() || at > buf.len() - needle.len() {
        return false;
    }
    let mut i: usize = 0;
    while i < needle.len()
        invariant
            i <= needle.len(),
            at + needle.len() <= buf.len(),
            forall|k: int| 0 <= k < i ==> buf@[at + k] == needle@[k],
        decreases needle.len() - i,
    {
        if buf[at + i] != needle[i] {
            assert(buf@.subrange(at as int, at + needle@.len())[i as int] != needle@[i as int]);
            return false;
        }
        i += 1;
    }
    assert(buf@.subrange(at as int, at + needle@.len()) =~= needle@);
    true
}

/// Does `buf` begin with `prefix`?
pub fn starts_with(buf: &[u8], prefix: &[u8]) -> (found: bool)
    ensures
        found == prefix@.is_prefix_of(buf@),
{
    let found = matches_at(buf, 0, prefix);
    proof {
        if prefix@.len() <= buf@.len() {
            assert(buf@.subrange(0, prefix@.len() as int) == prefix@ <==> prefix@.is_prefix_of(
                buf@,
            )) by {
                if prefix@.is_prefix_of(buf@) {
                    assert(buf@.subrange(0, prefix@.len() as int) =~= prefix@);
                }
                if buf@.subrange(0, prefix@.len() as int) == prefix@ {
                    assert forall|k: int| 0 <= k < prefix@.len() implies prefix@[k] == buf@[k] by {
                        assert(buf@.subrange(0, prefix@.len() as int)[k] == buf@[k]);
                    }
                }
            }
        }
    }
    found
}

/// Does `needle` occur anywhere in `buf`?
pub fn contains(buf: &[u8], needle: &[u8]) -> (found: bool)
    ensures
        found == contains_bytes(buf@, needle@),
{
    if needle.len() > buf.len() {
        return false;
    }
    let last: usize = buf.len() - needle.len();
    let mut at: usize = 0;
    loop
        invariant
            last == buf.len() - needle.len(),
            at <= last,
            forall|k: int| 0 <= k < at ==> !occurs_at(buf@, needle@, k),
        decreases last - at,
    {
        if matches_at(buf, at, needle) {
            return true;
        }
        if at == last {
            return false;
        }
        at += 1;
    }
}

/// Index of the first byte equal to `byte` at or after `from`, or the length when there is none.
pub(crate) fn find_byte(buf: &[u8], byte: u8, from: usize) -> (at: usize)
    requires
        from <= buf.len(),
    ensures
        at == position_of(buf@, byte, from as int),
        from <= at <= buf.len(),
{
    let mut at: usize = from;
    while at < buf.len() && buf[at] != byte
        invariant
            from <= at <= buf.len(),
            position_of(buf@, byte, from as int) == position_of(buf@, byte, at as int),
        decreases buf.len() - at,
    {
        at += 1;
    }
    at
}

/// Copies `buf[from..to]` into a fresh vector.
pub(crate) fn copy_range(buf: &[u8], from: usize, to: usize) -> (out: Vec<u8>)
    requires
        from <= to <= buf.len(),
    ensures
        out@ == buf@.subrange(from as int, to as int),
{
    slice_to_vec(slice_subrange(buf, from, to))
}

} // verus!
