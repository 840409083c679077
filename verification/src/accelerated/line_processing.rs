//! Line-boundary utilities over raw byte buffers.
use vstd::prelude::*;

verus! {

/// How many newline bytes the buffer holds before offset `i`.
pub open spec fn nl_count(d: Seq<u8>, i: int) -> int
    decreases i,
{
    if i <= 0 {
        0
    } else {
        nl_count(d, i - 1) + if d[i - 1] == 10 {
            1int
        } else {
            0int
        }
    }
}

/// The number of lines in a buffer: its newline count, plus one for a
/// trailing line not ended by a newline.
pub open spec fn spec_count_lines(d: Seq<u8>) -> int {
    nl_count(d, d.len() as int) + if d.len() == 0 || d.last() == 10 {
        0int
    } else {
        1int
    }
}

pub proof fn lemma_nl_count_le(d: Seq<u8>, i: int)
    requires
        0 <= i <= d.len(),
    ensures
        0 <= nl_count(d, i) <= i,
    decreases i,
{
    if i > 0 {
        lemma_nl_count_le(d, i - 1);
    }
}

/// The positions of every newline byte in the buffer, in ascending order.
pub fn find_line_endings(buffer: &[u8]) -> (r: Vec<usize>)
    ensures
        r@.len() == nl_count(buffer@, buffer@.len() as int),
        forall|x: int|
            0 <= x < r@.len() ==> (#[trigger] r@[x]) < buffer@.len() && buffer@[r@[x] as int]
                == 10,
        forall|x: int, y: int| 0 <= x < y < r@.len() ==> r@[x] < r@[y],
        forall|p: int|
            0 <= p < buffer@.len() && buffer@[p] == 10 ==> exists|x: int|
                0 <= x < r@.len() && r@[x] == p,
{
    let n = buffer.len();
    let mut r: Vec<usize> = Vec::new();
    let mut i: usize = 0;
    while i < n
        invariant
            0 <= i <= n,
            n == buffer@.len(),
            r@.len() == nl_count(buffer@, i as int),
            forall|x: int|
                0 <= x < r@.len() ==> (#[trigger] r@[x]) < i && buffer@[r@[x] as int] == 10,
            forall|x: int, y: int| 0 <= x < y < r@.len() ==> r@[x] < r@[y],
            forall|p: int|
                0 <= p < i && buffer@[p] == 10 ==> exists|x: int|
                    0 <= x < r@.len() && r@[x] == p,
        decreases n - i,
    {
        let ghost r0 = r@;
        if buffer[i] == 10 {
            r.push(i);
            proof {
                assert(r@[r@.len() - 1] == i as int);
            }
        }
        proof {
            assert forall|p: int|
                0 <= p < i + 1 && buffer@[p] == 10 implies exists|x: int|
                0 <= x < r@.len() && r@[x] == p by {
                if p < i {
                    let x = choose|x: int| 0 <= x < r0.len() && r0[x] == p;
                    assert(r@[x] == p);
                } else {
                    assert(r@[r@.len() - 1] == p);
                }
            }
        }
        i += 1;
    }
    r
}

/// Counts the lines of a buffer.
pub fn count_lines(buffer: &[u8]) -> (r: usize)
    ensures
        r == spec_count_lines(buffer@),
{
    proof {
        lemma_nl_count_le(buffer@, buffer@.len() as int);
    }
    let endings = find_line_endings(buffer);
    let nl = endings.len();
    let n = buffer.len();
    if n == 0 || buffer[n - 1] == 10 {
        nl
    } else {
        proof {
            lemma_nl_count_le(buffer@, n as int - 1);
            assert(nl_count(buffer@, n as int) == nl_count(buffer@, n as int - 1));
        }
        nl + 1
    }
}

} // verus!
