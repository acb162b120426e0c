//! How far two runs of bytes agree.

use vstd::prelude::*;

verus! {

/// `n` is the length of the longest common prefix of `a` and `b`.
pub open spec fn is_common_prefix(a: Seq<u8>, b: Seq<u8>, n: int) -> bool {
    &&& 0 <= n <= a.len()
    &&& n <= b.len()
    &&& forall|i: int| 0 <= i < n ==> a[i] == b[i]
    &&& (n < a.len() && n < b.len()) ==> a[n] != b[n]
}

/// The length of the longest common prefix of `a` and `b`.
pub open spec fn common_prefix(a: Seq<u8>, b: Seq<u8>) -> int
    decreases a.len(),
{
    if a.len() == 0 || b.len() == 0 || a[0] != b[0] {
        0
    } else {
        1 + common_prefix(a.drop_first(), b.drop_first())
    }
}

/// The longest common prefix exists, and there is only one.
pub proof fn lemma_common_prefix(a: Seq<u8>, b: Seq<u8>)
    ensures
        is_common_prefix(a, b, common_prefix(a, b)),
        forall|n: int| is_common_prefix(a, b, n) ==> n == common_prefix(a, b),
    decreases a.len(),
{
    let c = common_prefix(a, b);
    if !(a.len() == 0 || b.len() == 0 || a[0] != b[0]) {
        lemma_common_prefix(a.drop_first(), b.drop_first());
        let d = common_prefix(a.drop_first(), b.drop_first());
        assert forall|i: int| 0 <= i < c implies a[i] == b[i] by {
            if i > 0 {
                assert(a.drop_first()[i - 1] == b.drop_first()[i - 1]);
            }
        }
        if c < a.len() && c < b.len() {
            assert(a.drop_first()[d] != b.drop_first()[d]);
        }
    }
    assert forall|n: int| is_common_prefix(a, b, n) implies n == c by {
        if n < c {
            assert(a[n] == b[n]);
        } else if c < n {
            assert(a[c] == b[c]);
        }
    }
}

/// The number of leading bytes in which two slices agree.
pub fn extend_match_safe(s1: &[u8], s2: &[u8]) -> (n: usize)
    ensures
        n == common_prefix(s1@, s2@),
        n <= s1@.len(),
        n <= s2@.len(),
        forall|i: int| 0 <= i < n ==> s1@[i] == s2@[i],
        n < s1@.len() && n < s2@.len() ==> s1@[n as int] != s2@[n as int],
{
    let len: usize = if s1.len() < s2.len() { s1.len() } else { s2.len() };
    let mut extended_len: usize = 0;
    while extended_len < len && s1[extended_len] == s2[extended_len]
        invariant
            extended_len <= len,
            len <= s1@.len(),
            len <= s2@.len(),
            forall|i: int| 0 <= i < extended_len ==> s1@[i] == s2@[i],
        decreases len - extended_len,
    {
        extended_len += 1;
    }
    proof {
        lemma_common_prefix(s1@, s2@);
        assert(is_common_prefix(s1@, s2@, extended_len as int));
    }
    extended_len
}

/// The length of the match between `buf` at `read_pos` and `buf` `distance` bytes before it, when
/// the first `current_len` bytes are known to agree and no more than `limit` are of interest. A
/// match does not reach past the end of `buf`.
pub open spec fn extended_len(
    buf: Seq<u8>,
    read_pos: int,
    current_len: int,
    distance: int,
    limit: int,
) -> int {
    let start1 = read_pos + current_len;
    let start2 = start1 - distance;
    let end1 = if read_pos + limit < buf.len() { read_pos + limit } else { buf.len() as int };
    if start1 < end1 {
        current_len + common_prefix(
            buf.subrange(start1, end1),
            buf.subrange(start2, end1 - distance),
        )
    } else {
        current_len
    }
}

/// Extends a match to its maximum possible length within a limit.
pub fn extend_match(
    buf: &[u8],
    read_pos: i32,
    current_len: i32,
    distance: i32,
    limit: i32,
) -> (len: i32)
    requires
        0 <= read_pos,
        0 <= current_len <= limit,
        0 <= distance <= read_pos + current_len,
        read_pos + limit <= i32::MAX,
    ensures
        len == extended_len(
            buf@,
            read_pos as int,
            current_len as int,
            distance as int,
            limit as int,
        ),
        current_len <= len <= limit,
        read_pos + limit <= buf@.len() ==> {
            &&& forall|i: int|
                current_len <= i < len ==> #[trigger] buf@[read_pos + i] == buf@[read_pos - distance
                    + i]
            &&& len < limit ==> buf@[read_pos + len] != buf@[read_pos - distance + len]
        },
{
    let start1: usize = (read_pos + current_len) as usize;
    let start2: usize = start1 - distance as usize;
    let logical_extension: usize = (limit - current_len) as usize;
    let physical_extension: usize = buf.len().saturating_sub(start1);
    if physical_extension == 0 {
        return current_len;
    }
    let extension_limit: usize = if logical_extension < physical_extension {
        logical_extension
    } else {
        physical_extension
    };
    let s1 = vstd::slice::slice_subrange(buf, start1, start1 + extension_limit);
    let s2 = vstd::slice::slice_subrange(buf, start2, start2 + extension_limit);
    let extension: usize = extend_match_safe(s1, s2);
    proof {
        lemma_common_prefix(s1@, s2@);
        assert forall|i: int|
            current_len <= i < current_len + extension implies #[trigger] buf@[read_pos + i]
            == buf@[read_pos - distance + i] by {
            assert(s1@[i - current_len] == s2@[i - current_len]);
        }
    }
    current_len + extension as i32
}

} // verus!
