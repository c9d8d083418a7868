//! Selecting random regions of a file: the regions are the text between occurrences of a
//! delimiter.

use vstd::prelude::*;
use vstd::utf8::{decode_utf8, valid_utf8};

verus! {

/// `delimiter` occurs in `content` at position `i`.
pub open spec fn matches_at(content: Seq<u8>, delimiter: Seq<u8>, i: int) -> bool {
    0 <= i && i + delimiter.len() <= content.len() && content.subrange(i, i + delimiter.len()) == delimiter
}

/// The positions, from `i` on, of the occurrences of `delimiter` found by scanning left to
/// right and skipping past each occurrence found.
pub open spec fn region_offsets(content: Seq<u8>, delimiter: Seq<u8>, i: int) -> Seq<u64>
    decreases content.len() - i,
{
    if i < 0 || i >= content.len() || delimiter.len() == 0 {
        Seq::empty()
    } else if matches_at(content, delimiter, i) {
        seq![i as u64] + region_offsets(content, delimiter, i + delimiter.len())
    } else {
        region_offsets(content, delimiter, i + 1)
    }
}

/// Whether `delimiter` occurs in `content` at position `i`.
pub fn is_region_start(content: &[u8], i: usize, delimiter: &[u8]) -> (b: bool)
    ensures
        b == matches_at(content@, delimiter@, i as int),
{
    if i > content.len() || delimiter.len() > content.len() - i {
        return false;
    }
    let _n = content.len();
    let mut k: usize = 0;
    while k < delimiter.len()
        invariant
            content@.len() <= usize::MAX,
            0 <= k <= delimiter@.len(),
            i + delimiter@.len() <= content@.len(),
            forall|j: int| 0 <= j < k ==> content@[i + j] == delimiter@[j],
        decreases delimiter@.len() - k,
    {
        if content[i + k] != delimiter[k] {
            assert(content@.subrange(i as int, i + delimiter@.len())[k as int] != delimiter@[k as int]);
            return false;
        }
        k = k + 1;
    }
    assert(content@.subrange(i as int, i + delimiter@.len()) =~= delimiter@);
    true
}

/// The positions of the occurrences of `delimiter` in `content`, scanning left to right and
/// skipping past each occurrence found.
pub fn find_region_offsets(content: &[u8], delimiter: &[u8]) -> (offsets: Vec<u64>)
    requires
        content@.len() < u64::MAX,
    ensures
        offsets@ == region_offsets(content@, delimiter@, 0),
{
    let mut result: Vec<u64> = Vec::new();
    if delimiter.len() == 0 {
        return result;
    }
    let mut i: usize = 0;
    while i < content.len()
        invariant
            delimiter@.len() > 0,
            content@.len() < u64::MAX,
            0 <= i <= content@.len() + delimiter@.len(),
            result@ + region_offsets(content@, delimiter@, i as int) == region_offsets(content@, delimiter@, 0),
        decreases content@.len() + delimiter@.len() - i,
    {
        if is_region_start(content, i, delimiter) {
            let ghost before = result@;
            result.push(i as u64);
            proof {
                assert(before + region_offsets(content@, delimiter@, i as int) =~= result@ + region_offsets(content@, delimiter@, i + delimiter@.len()));
            }
            i = i + delimiter.len();
        } else {
            i = i + 1;
        }
    }
    assert(region_offsets(content@, delimiter@, i as int) =~= Seq::<u64>::empty());
    assert(result@ =~= result@ + Seq::<u64>::empty());
    result
}

/// Where region `idx` starts and how many bytes it holds, for delimiters at `offsets` that are
/// `delimiter_len` bytes long in a file of `file_len` bytes. Region 0 starts at the start of
/// the file and region `k` after the delimiter at `offsets[k - 1]`; every region but the last
/// ends where the next delimiter starts, and region `offsets.len()` runs to the end of the
/// file. Nothing for an index past the last region, or for positions that are not in order.
pub open spec fn region_bounds_spec(offsets: Seq<u64>, file_len: int, delimiter_len: int, idx: int) -> Option<(int, int)> {
    let n = offsets.len() as int;
    if idx < 0 || idx > n {
        None
    } else {
        let start = if idx == 0 { 0 } else { offsets[idx - 1] + delimiter_len };
        let end = if idx < n { offsets[idx] as int } else { file_len };
        if end >= start { Some((start, end - start)) } else { None }
    }
}

/// The start and length of region `idx`; nothing when the index is past the last region, or
/// when the positions are not those of delimiters in a file of `file_len` bytes.
pub fn region_bounds(offsets: &Vec<u64>, file_len: u64, delimiter_len: u64, idx: usize) -> (r: Option<(u64, u64)>)
    ensures
        match region_bounds_spec(offsets@, file_len as int, delimiter_len as int, idx as int) {
            Some((s, n)) => r == Some((s as u64, n as u64)) && s + n <= u64::MAX,
            None => r is None,
        } || (r is None && (idx > 0 && offsets@[idx - 1] + delimiter_len > u64::MAX)),
{
    let n = offsets.len();
    if idx > n {
        return None;
    }
    let start: u64 = if idx == 0 {
        0
    } else {
        if offsets[idx - 1] > u64::MAX - delimiter_len {
            return None;
        }
        offsets[idx - 1] + delimiter_len
    };
    let end: u64 = if idx < n { offsets[idx] } else { file_len };
    if end >= start {
        Some((start, end - start))
    } else {
        None
    }
}

/// The positions found from `i` on are where the delimiter occurs, none before `i`, in
/// increasing order and at least the delimiter's length apart.
pub proof fn lemma_region_offsets_ordered(content: Seq<u8>, delimiter: Seq<u8>, i: int)
    requires
        0 <= i,
        content.len() <= u64::MAX,
    ensures
        ({
            let o = region_offsets(content, delimiter, i);
            &&& forall|k: int| 0 <= k < o.len() ==> i <= #[trigger] o[k] && matches_at(content, delimiter, o[k] as int)
            &&& forall|a: int, b: int| 0 <= a < b < o.len() ==> #[trigger] o[a] + delimiter.len() <= #[trigger] o[b]
        }),
    decreases content.len() - i,
{
    if i >= content.len() || delimiter.len() == 0 {
    } else if matches_at(content, delimiter, i) {
        lemma_region_offsets_ordered(content, delimiter, i + delimiter.len());
        let rest = region_offsets(content, delimiter, i + delimiter.len());
        let o = region_offsets(content, delimiter, i);
        assert(o == seq![i as u64] + rest);
        assert(o[0] == i);
        assert forall|a: int, b: int| 0 <= a < b < o.len() implies #[trigger] o[a] + delimiter.len() <= #[trigger] o[b] by {
            if a > 0 {
                assert(o[a] == rest[a - 1] && o[b] == rest[b - 1]);
            } else {
                assert(o[b] == rest[b - 1]);
            }
        }
        assert forall|k: int| 0 <= k < o.len() implies i <= #[trigger] o[k] && matches_at(content, delimiter, o[k] as int) by {
            if k > 0 {
                assert(o[k] == rest[k - 1]);
            }
        }
    } else {
        lemma_region_offsets_ordered(content, delimiter, i + 1);
        assert(region_offsets(content, delimiter, i) == region_offsets(content, delimiter, i + 1));
    }
}

/// The scan finds every occurrence it reaches: a position `i` at or after `j` where the
/// delimiter occurs (ending at the end of the content at the latest), and which lies inside
/// no occurrence found before it, is among the positions found from `j` on. In particular a
/// delimiter that ends the content is found.
pub proof fn lemma_region_offsets_complete(content: Seq<u8>, delimiter: Seq<u8>, j: int, i: int)
    requires
        0 <= j <= i,
        delimiter.len() > 0,
        i + delimiter.len() <= content.len(),
        content.len() <= u64::MAX,
        content.subrange(i, i + delimiter.len()) == delimiter,
        forall|k: int| 0 <= k < region_offsets(content, delimiter, j).len() ==> !(#[trigger] region_offsets(content, delimiter, j)[k] < i
            < region_offsets(content, delimiter, j)[k] + delimiter.len()),
    ensures
        region_offsets(content, delimiter, j).contains(i as u64),
    decreases i - j,
{
    let o = region_offsets(content, delimiter, j);
    if matches_at(content, delimiter, j) {
        let rest = region_offsets(content, delimiter, j + delimiter.len());
        assert(o == seq![j as u64] + rest);
        assert(o[0] == j);
        if j == i {
            assert(o[0] == i as u64);
        } else {
            assert(!(o[0] < i < o[0] + delimiter.len()));
            assert forall|k: int| 0 <= k < rest.len() implies !(#[trigger] rest[k] < i < rest[k] + delimiter.len()) by {
                assert(o[k + 1] == rest[k]);
            }
            lemma_region_offsets_complete(content, delimiter, j + delimiter.len(), i);
            let k = choose|k: int| 0 <= k < rest.len() && rest[k] == i as u64;
            assert(o[k + 1] == i as u64);
        }
    } else {
        assert(j != i);
        assert(o == region_offsets(content, delimiter, j + 1));
        lemma_region_offsets_complete(content, delimiter, j + 1, i);
    }
}

/// Every occurrence of the delimiter that lies inside no earlier found one is found; with a
/// one-character delimiter, every occurrence is.
pub proof fn lemma_single_byte_delimiters_all_found(content: Seq<u8>, delimiter: Seq<u8>, i: int)
    requires
        delimiter.len() == 1,
        0 <= i < content.len(),
        content.len() <= u64::MAX,
        content[i] == delimiter[0],
    ensures
        region_offsets(content, delimiter, 0).contains(i as u64),
{
    assert(content.subrange(i, i + 1) =~= delimiter);
    lemma_region_offsets_complete(content, delimiter, 0, i);
}

/// With the delimiter positions found in `content`, every region can be read: its bounds lie
/// within the content, and between the delimiters around it.
pub proof fn lemma_regions_in_content(content: Seq<u8>, delimiter: Seq<u8>, idx: int)
    requires
        content.len() < u64::MAX,
        0 <= idx <= region_offsets(content, delimiter, 0).len(),
    ensures
        region_bounds_spec(region_offsets(content, delimiter, 0), content.len() as int, delimiter.len() as int, idx) matches Some((s, n))
            && 0 <= s && s + n <= content.len(),
{
    lemma_region_offsets_ordered(content, delimiter, 0);
    let o = region_offsets(content, delimiter, 0);
    if idx > 0 {
        assert(matches_at(content, delimiter, o[idx - 1] as int));
    }
    if idx < o.len() {
        assert(matches_at(content, delimiter, o[idx] as int));
        if idx > 0 {
            assert(o[idx - 1] + delimiter.len() <= o[idx]);
        }
    }
}

/// std's `String::from_utf8` on a copy of `bytes`: the text they encode, when they are UTF-8.
#[verifier::external_body]
pub(crate) fn utf8_text(bytes: &[u8]) -> (r: Option<String>)
    ensures
        r is Some <==> valid_utf8(bytes@),
        r matches Some(s) ==> s@ == decode_utf8(bytes@),
{
    String::from_utf8(bytes.to_vec()).ok()
}

/// A copy of `bytes[start..start + len]`.
pub fn byte_range(bytes: &Vec<u8>, start: usize, len: usize) -> (r: Vec<u8>)
    requires
        start + len <= bytes@.len(),
    ensures
        r@ == bytes@.subrange(start as int, start + len),
{
    let mut out: Vec<u8> = Vec::new();
    let _n = bytes.len();
    let mut k: usize = 0;
    while k < len
        invariant
            bytes@.len() <= usize::MAX,
            0 <= k <= len,
            start + len <= bytes@.len(),
            out@ == bytes@.subrange(start as int, start + k),
        decreases len - k,
    {
        out.push(bytes[start + k]);
        k = k + 1;
        assert(out@ =~= bytes@.subrange(start as int, start + k));
    }
    out
}

} // verus!
