use vstd::prelude::*;

verus! {

/// Bytes before the first chunk of a voxel file: the magic number and the
/// version.
pub const FILE_HEADER_BYTES: usize = 8;

/// Bytes of a chunk header: the id, the size of the content and the size of
/// the children, four bytes each.
pub const CHUNK_HEADER_BYTES: usize = 12;

/// The deepest nesting of chunks that the loader accepts. Files of the
/// format nest two deep: the main chunk and its children.
pub const MAX_NESTING: usize = 16;

/// The little-endian 32-bit number at `at`.
pub open spec fn le32(s: Seq<u8>, at: int) -> int {
    s[at] + 256 * s[at + 1] + 65536 * s[at + 2] + 16777216 * s[at + 3]
}

/// Where the children of the chunk at `lo` begin: behind its header and its
/// content.
pub open spec fn children_start(s: Seq<u8>, lo: int) -> int {
    lo + 12 + le32(s, lo + 4)
}

/// Where the chunk at `lo` ends: behind its children.
pub open spec fn chunk_end(s: Seq<u8>, lo: int) -> int {
    children_start(s, lo) + le32(s, lo + 8)
}

/// Whether the bytes from `lo` up to `hi` begin with a whole chunk: a header
/// and as many bytes of content and of children as the header announces.
pub open spec fn framed(s: Seq<u8>, lo: int, hi: int) -> bool {
    &&& 0 <= lo
    &&& hi <= s.len()
    &&& lo + 12 <= hi
    &&& chunk_end(s, lo) <= hi
}

/// How deep chunks nest in the run of chunks from `lo` up to `hi`. The run
/// ends where no whole chunk begins. A chunk nests one deeper than the run of
/// its children.
pub open spec fn run_nesting(s: Seq<u8>, lo: int, hi: int) -> nat
    decreases hi - lo,
{
    if framed(s, lo, hi) {
        let inside = 1 + run_nesting(s, children_start(s, lo), chunk_end(s, lo));
        let behind = run_nesting(s, chunk_end(s, lo), hi);
        if inside >= behind {
            inside
        } else {
            behind
        }
    } else {
        0
    }
}

/// How deep chunks nest in a voxel file: one for the chunk behind the file
/// header, if a whole chunk stands there, and what its children add.
pub open spec fn nesting(bytes: Seq<u8>) -> nat {
    if framed(bytes, 8, bytes.len() as int) {
        1 + run_nesting(bytes, children_start(bytes, 8), chunk_end(bytes, 8))
    } else {
        0
    }
}

/// A run of chunks that is still to be looked at: where it begins, where it
/// ends, and how many chunks enclose it.
type Run = (usize, usize, usize);

/// Whether the chunks of a run, with those that enclose it, nest no deeper
/// than `limit`.
spec fn run_within(s: Seq<u8>, run: Run, limit: usize) -> bool {
    run.2 + run_nesting(s, run.0 as int, run.1 as int) <= limit
}

/// The bytes that the runs span, and one for each run.
spec fn work(runs: Seq<Run>) -> int
    decreases runs.len(),
{
    if runs.len() == 0 {
        0
    } else {
        (runs.last().1 - runs.last().0 + 1) + work(runs.drop_last())
    }
}

/// A run more is its bytes more to look at, and one.
proof fn lemma_work_push(runs: Seq<Run>, run: Run)
    ensures
        work(runs.push(run)) == work(runs) + (run.1 - run.0 + 1),
{
    assert(runs.push(run).drop_last() =~= runs);
}

/// Runs that do not end before they begin have no less than nothing to look
/// at.
proof fn lemma_work_bound(runs: Seq<Run>)
    requires
        forall|i: int| 0 <= i < runs.len() ==> (#[trigger] runs[i]).0 <= runs[i].1,
    ensures
        work(runs) >= 0,
    decreases runs.len(),
{
    if runs.len() > 0 {
        let fewer = runs.drop_last();
        assert forall|i: int| 0 <= i < fewer.len() implies (#[trigger] fewer[i]).0 <= fewer[i].1 by {
            assert(fewer[i] == runs[i]);
        }
        lemma_work_bound(fewer);
    }
}

/// Reads the little-endian 32-bit number at `at`.
fn read_le32(bytes: &[u8], at: usize) -> (v: u64)
    requires
        at + 4 <= bytes@.len(),
    ensures
        v == le32(bytes@, at as int),
        v <= u32::MAX,
{
    bytes[at] as u64 + 256 * (bytes[at + 1] as u64) + 65536 * (bytes[at + 2] as u64) + 16777216 * (
    bytes[at + 3] as u64)
}

/// Looks for a whole chunk at the beginning of the bytes from `lo` up to
/// `hi`, and says where its children begin and where it ends.
fn frame_at(bytes: &[u8], lo: usize, hi: usize) -> (frame: Option<(usize, usize)>)
    requires
        lo <= hi <= bytes@.len(),
    ensures
        match frame {
            Some((inside, behind)) => {
                &&& framed(bytes@, lo as int, hi as int)
                &&& inside == children_start(bytes@, lo as int)
                &&& behind == chunk_end(bytes@, lo as int)
                &&& lo + 12 <= inside <= behind <= hi
            },
            None => !framed(bytes@, lo as int, hi as int),
        },
{
    if hi - lo < CHUNK_HEADER_BYTES {
        return None;
    }
    let room = (hi - lo - CHUNK_HEADER_BYTES) as u64;
    let content = read_le32(bytes, lo + 4);
    let children = read_le32(bytes, lo + 8);
    if content + children > room {
        return None;
    }
    let inside = lo + CHUNK_HEADER_BYTES + content as usize;
    Some((inside, inside + children as usize))
}

/// Whether the chunks of a voxel file nest no deeper than `limit`. The file
/// is walked with a list of the runs still to be looked at, so the walk
/// itself nests nowhere.
pub fn nesting_within(bytes: &[u8], limit: usize) -> (ok: bool)
    ensures
        ok == (nesting(bytes@) <= limit),
{
    if bytes.len() < FILE_HEADER_BYTES {
        return true;
    }
    let (inside, behind) = match frame_at(bytes, FILE_HEADER_BYTES, bytes.len()) {
        Some(frame) => frame,
        None => {
            return true;
        },
    };
    if limit == 0 {
        return false;
    }
    let mut runs: Vec<Run> = Vec::new();
    runs.push((inside, behind, 1));
    proof {
        lemma_work_push(Seq::<Run>::empty(), (inside, behind, 1));
        assert(runs@ =~= Seq::<Run>::empty().push((inside, behind, 1)));
    }
    loop
        invariant
            forall|i: int|
                0 <= i < runs@.len() ==> (#[trigger] runs@[i]).0 <= runs@[i].1 <= bytes@.len()
                    && runs@[i].2 <= limit,
            (nesting(bytes@) <= limit) == (forall|i: int|
                0 <= i < runs@.len() ==> run_within(bytes@, #[trigger] runs@[i], limit)),
        decreases work(runs@),
    {
        let ghost before = runs@;
        let (lo, hi, depth) = match runs.pop() {
            Some(run) => run,
            None => {
                return true;
            },
        };
        proof {
            assert(before =~= runs@.push((lo, hi, depth)));
            lemma_work_push(runs@, (lo, hi, depth));
            assert(before[before.len() - 1] == (lo, hi, depth));
            assert forall|i: int| 0 <= i < runs@.len() implies (#[trigger] runs@[i]) == before[i] by {}
            lemma_work_bound(runs@);
        }
        match frame_at(bytes, lo, hi) {
            None => {
                proof {
                    assert(run_within(bytes@, (lo, hi, depth), limit));
                    assert((forall|i: int|
                        0 <= i < before.len() ==> run_within(bytes@, #[trigger] before[i], limit))
                        == (forall|i: int|
                        0 <= i < runs@.len() ==> run_within(bytes@, #[trigger] runs@[i], limit))) by {
                        if forall|i: int|
                            0 <= i < runs@.len() ==> run_within(bytes@, #[trigger] runs@[i], limit) {
                            assert forall|i: int| 0 <= i < before.len() implies run_within(
                                bytes@,
                                #[trigger] before[i],
                                limit,
                            ) by {
                                if i < runs@.len() {
                                    assert(before[i] == runs@[i]);
                                }
                            }
                        }
                    }
                }
            },
            Some((inside, behind)) => {
                if depth >= limit {
                    proof {
                        assert(!run_within(bytes@, before[before.len() - 1], limit));
                    }
                    return false;
                }
                let ghost rest = runs@;
                runs.push((behind, hi, depth));
                runs.push((inside, behind, depth + 1));
                proof {
                    lemma_work_push(rest, (behind, hi, depth));
                    lemma_work_push(rest.push((behind, hi, depth)), (inside, behind, (depth + 1) as usize));
                    let after = runs@;
                    assert(after =~= rest.push((behind, hi, depth)).push(
                        (inside, behind, (depth + 1) as usize),
                    ));
                    assert(work(after) < work(before));
                    assert(run_within(bytes@, (lo, hi, depth), limit) == (run_within(
                        bytes@,
                        (behind, hi, depth),
                        limit,
                    ) && run_within(bytes@, (inside, behind, (depth + 1) as usize), limit)));
                    assert(after[rest.len() as int] == (behind, hi, depth));
                    assert(after[rest.len() as int + 1] == (inside, behind, (depth + 1) as usize));
                    assert((forall|i: int|
                        0 <= i < before.len() ==> run_within(bytes@, #[trigger] before[i], limit))
                        == (forall|i: int|
                        0 <= i < after.len() ==> run_within(bytes@, #[trigger] after[i], limit))) by {
                        if forall|i: int|
                            0 <= i < before.len() ==> run_within(bytes@, #[trigger] before[i], limit) {
                            assert forall|i: int| 0 <= i < after.len() implies run_within(
                                bytes@,
                                #[trigger] after[i],
                                limit,
                            ) by {
                                if i < rest.len() {
                                    assert(after[i] == before[i]);
                                }
                            }
                        }
                        if forall|i: int|
                            0 <= i < after.len() ==> run_within(bytes@, #[trigger] after[i], limit) {
                            assert forall|i: int| 0 <= i < before.len() implies run_within(
                                bytes@,
                                #[trigger] before[i],
                                limit,
                            ) by {
                                if i < rest.len() {
                                    assert(before[i] == after[i]);
                                }
                            }
                        }
                    }
                    assert forall|i: int| 0 <= i < after.len() implies (#[trigger] after[i]).0
                        <= after[i].1 <= bytes@.len() && after[i].2 <= limit by {
                        if i < rest.len() {
                            assert(after[i] == before[i]);
                        }
                    }
                    lemma_work_bound(after);
                }
            },
        }
    }
}

} // verus!
