use vstd::prelude::*;
use crate::embedding::EmbeddingError;

verus! {

/// A share of a batch for one worker: the texts of the chunk and the chunk's position.
#[derive(Debug)]
pub struct EmbeddingTask {
    pub idx: usize,
    pub contents: Vec<String>,
}

/// What a worker gives back for a task: the chunk's position and one vector for each text.
#[derive(Debug)]
pub struct EmbeddingResult<V> {
    pub idx: usize,
    pub vectors: Vec<V>,
}

/// The number of texts in each chunk but the last, when `len` texts are shared out among
/// `workers` workers: `len / workers`, rounded up.
pub open spec fn chunk_size(len: nat, workers: nat) -> nat
    recommends
        workers > 0,
{
    if len % workers == 0 {
        len / workers
    } else {
        len / workers + 1
    }
}

/// Where the chunk at position `idx` starts, when `len` texts are cut into chunks of `size`
/// texts: at `idx * size`, or at the end where this lies beyond it.
pub open spec fn chunk_start(len: int, size: int, idx: int) -> int {
    if idx * size < len {
        idx * size
    } else {
        len
    }
}

/// The texts of a run of strings.
pub open spec fn texts<'a>(text: Seq<&'a str>) -> Seq<Seq<char>> {
    text.map_values(|t: &str| t@)
}

/// The texts that a task holds.
pub open spec fn task_texts(task: EmbeddingTask) -> Seq<Seq<char>> {
    task.contents@.map_values(|t: String| t@)
}

/// `tasks` shares `text` out among at most `workers` workers: contiguous chunks in the
/// order of the texts, none of them empty, each at its position, all of one size but
/// possibly the last.
pub open spec fn shares_out(tasks: Seq<EmbeddingTask>, text: Seq<Seq<char>>, workers: nat) -> bool {
    let len = text.len() as int;
    let size = chunk_size(text.len(), workers) as int;
    &&& tasks.len() <= workers
    &&& forall|i: int|
        0 <= i < tasks.len() ==> {
            &&& (#[trigger] tasks[i]).idx == i
            &&& chunk_start(len, size, i) < chunk_start(len, size, i + 1)
            &&& task_texts(tasks[i]) == text.subrange(
                chunk_start(len, size, i),
                chunk_start(len, size, i + 1),
            )
        }
    &&& chunk_start(len, size, tasks.len() as int) == len
}

/// Shares a batch of texts out among `nb_embedders` workers, as contiguous chunks in the
/// order of the texts. An empty batch makes no task, and neither does a batch for no
/// worker at all.
pub fn split_tasks(text: &[&str], nb_embedders: usize) -> (tasks: Vec<EmbeddingTask>)
    ensures
        nb_embedders > 0 ==> shares_out(tasks@, texts(text@), nb_embedders as nat),
        nb_embedders == 0 ==> tasks@.len() == 0,
{
    if nb_embedders == 0 {
        return Vec::new();
    }
    let len = text.len();
    assert(len % nb_embedders != 0 ==> len / nb_embedders < len) by (nonlinear_arith)
        requires
            nb_embedders > 0,
    ;
    let slice_size = if len % nb_embedders == 0 {
        len / nb_embedders
    } else {
        len / nb_embedders + 1
    };
    let ghost all = texts(text@);
    assert(slice_size == chunk_size(all.len(), nb_embedders as nat));
    assert(len <= nb_embedders * slice_size) by (nonlinear_arith)
        requires
            nb_embedders > 0,
            len % nb_embedders == 0 ==> slice_size == len / nb_embedders,
            len % nb_embedders != 0 ==> slice_size == len / nb_embedders + 1,
    ;
    let mut tasks: Vec<EmbeddingTask> = Vec::new();
    let mut start: usize = 0;
    assert(0 * slice_size == 0) by (nonlinear_arith);
    while start < len
        invariant
            len == text@.len(),
            all == texts(text@),
            slice_size == chunk_size(all.len(), nb_embedders as nat),
            len <= nb_embedders * slice_size,
            start <= len,
            start < len ==> start == tasks@.len() * slice_size,
            start == chunk_start(len as int, slice_size as int, tasks@.len() as int),
            tasks@.len() <= nb_embedders,
            forall|i: int|
                0 <= i < tasks@.len() ==> {
                    &&& (#[trigger] tasks@[i]).idx == i
                    &&& chunk_start(len as int, slice_size as int, i) < chunk_start(
                        len as int,
                        slice_size as int,
                        i + 1,
                    )
                    &&& task_texts(tasks@[i]) == all.subrange(
                        chunk_start(len as int, slice_size as int, i),
                        chunk_start(len as int, slice_size as int, i + 1),
                    )
                },
        decreases len - start,
    {
        let ghost k = tasks@.len() as int;
        assert(slice_size > 0) by (nonlinear_arith)
            requires
                start < len,
                len <= nb_embedders * slice_size,
        ;
        assert((k + 1) * slice_size == k * slice_size + slice_size) by (nonlinear_arith);
        assert(k < nb_embedders) by (nonlinear_arith)
            requires
                0 <= k,
                k * slice_size < len,
                len <= nb_embedders * slice_size,
        ;
        let end = if len - start > slice_size {
            start + slice_size
        } else {
            len
        };
        assert(start == chunk_start(len as int, slice_size as int, k));
        assert(end == chunk_start(len as int, slice_size as int, k + 1));
        let mut contents: Vec<String> = Vec::new();
        let mut at: usize = start;
        while at < end
            invariant
                start <= at <= end <= len,
                len == text@.len(),
                all == texts(text@),
                contents@.len() == at - start,
                forall|j: int| 0 <= j < contents@.len() ==> (#[trigger] contents@[j])@ == all[start + j],
            decreases end - at,
        {
            contents.push(text[at].to_owned());
            at += 1;
        }
        let task = EmbeddingTask { idx: tasks.len(), contents };
        assert(task_texts(task) =~= all.subrange(start as int, end as int));
        let ghost earlier = tasks@;
        tasks.push(task);
        assert(forall|i: int| 0 <= i < k ==> #[trigger] tasks@[i] == earlier[i]);
        assert(tasks@[k] == task);
        start = end;
    }
    proof {
        let l = all.len() as int;
        let z = chunk_size(all.len(), nb_embedders as nat) as int;
        assert forall|i: int| 0 <= i < tasks@.len() implies {
            &&& (#[trigger] tasks@[i]).idx == i
            &&& chunk_start(l, z, i) < chunk_start(l, z, i + 1)
            &&& task_texts(tasks@[i]) == all.subrange(
                chunk_start(l, z, i),
                chunk_start(l, z, i + 1),
            )
        } by {
            assert(tasks@[i].idx == i);
        }
    }
    tasks
}

/// Some result at or after `from` is for the chunk at position `idx`.
pub open spec fn answered<V>(results: Seq<EmbeddingResult<V>>, from: int, idx: int) -> bool {
    exists|j: int| from <= j < results.len() && 0 <= j && (#[trigger] results[j]).idx == idx
}

/// The results hold exactly one result for each of the positions below `chunks`.
pub open spec fn placed<V>(results: Seq<EmbeddingResult<V>>, chunks: nat) -> bool {
    &&& results.len() == chunks
    &&& forall|j: int| 0 <= j < results.len() ==> (#[trigger] results[j]).idx < chunks
    &&& forall|j: int, k: int|
        0 <= j < k < results.len() ==> (#[trigger] results[j]).idx != (#[trigger] results[k]).idx
    &&& forall|i: int| 0 <= i < chunks ==> #[trigger] answered(results, 0, i)
}

/// The place among the results of a result for the chunk at position `idx`.
pub open spec fn result_for<V>(results: Seq<EmbeddingResult<V>>, idx: int) -> int {
    choose|j: int| 0 <= j < results.len() && 0 <= j && (#[trigger] results[j]).idx == idx
}

/// The vectors of the result for the chunk at position `idx`.
pub open spec fn chunk_of<V>(results: Seq<EmbeddingResult<V>>, idx: int) -> Seq<V> {
    results[result_for(results, idx)].vectors@
}

/// Every chunk has as many vectors as `sizes` says for its position.
pub open spec fn sized<V>(results: Seq<EmbeddingResult<V>>, sizes: Seq<usize>) -> bool {
    forall|i: int| 0 <= i < sizes.len() ==> chunk_of(results, i).len() == #[trigger] sizes[i]
}

/// The vectors of the first `chunks` chunks, joined in the order of their positions.
pub open spec fn joined<V>(results: Seq<EmbeddingResult<V>>, chunks: nat) -> Seq<V>
    decreases chunks,
{
    if chunks == 0 {
        Seq::empty()
    } else {
        joined(results, (chunks - 1) as nat) + chunk_of(results, chunks - 1)
    }
}

/// What the results of a batch make: the vectors in the order of the texts, whatever the
/// order in which the results came in. A position without its one result is a missing
/// result; a chunk with another number of vectors than texts is an encode error.
pub open spec fn assembled<V>(results: Seq<EmbeddingResult<V>>, sizes: Seq<usize>) -> Result<
    Seq<V>,
    EmbeddingError,
> {
    if !placed(results, sizes.len()) {
        Err(EmbeddingError::MissingResultError)
    } else if !sized(results, sizes) {
        Err(EmbeddingError::EncodeError)
    } else {
        Ok(joined(results, sizes.len()))
    }
}

/// The value of what assembling gives.
pub open spec fn vectors_outcome<V>(res: Result<Vec<V>, EmbeddingError>) -> Result<
    Seq<V>,
    EmbeddingError,
> {
    match res {
        Ok(vectors) => Ok(vectors@),
        Err(e) => Err(e),
    }
}

/// Puts the results of a batch back in the order of the texts. `sizes` holds the number of
/// texts of each chunk, by position. Either every chunk is there and whole, or the batch
/// fails: no part of it comes out.
pub fn assemble<V>(results: Vec<EmbeddingResult<V>>, sizes: &[usize]) -> (res: Result<
    Vec<V>,
    EmbeddingError,
>)
    ensures
        vectors_outcome(res) == assembled(results@, sizes@),
{
    let ghost all = results@;
    let chunks = sizes.len();
    if results.len() != chunks {
        return Err(EmbeddingError::MissingResultError);
    }
    let mut slots: Vec<Option<Vec<V>>> = Vec::new();
    while slots.len() < chunks
        invariant
            slots@.len() <= chunks,
            forall|i: int| 0 <= i < slots@.len() ==> (#[trigger] slots@[i]) is None,
        decreases chunks - slots@.len(),
    {
        slots.push(None);
    }
    let mut pending = results;
    while pending.len() > 0
        invariant
            all == results@,
            chunks == sizes@.len(),
            all.len() == chunks,
            slots@.len() == chunks,
            pending@.len() <= all.len(),
            pending@ == all.take(pending@.len() as int),
            forall|j: int| pending@.len() <= j < all.len() ==> (#[trigger] all[j]).idx < chunks,
            forall|j: int, k: int|
                pending@.len() <= j < k < all.len() ==> (#[trigger] all[j]).idx != (
                #[trigger] all[k]).idx,
            forall|i: int|
                0 <= i < chunks ==> ((#[trigger] slots@[i]) is Some <==> answered(
                    all,
                    pending@.len() as int,
                    i,
                )),
            forall|j: int|
                pending@.len() <= j < all.len() ==> slots@[(#[trigger] all[j]).idx as int]
                    == Some(all[j].vectors),
        decreases pending@.len(),
    {
        let ghost at = pending@.len() - 1;
        let result = match pending.pop() {
            Some(result) => result,
            None => {
                return Err(EmbeddingError::MissingResultError);
            },
        };
        assert(result == all[at]);
        if result.idx >= chunks {
            assert(all[at].idx >= chunks);
            return Err(EmbeddingError::MissingResultError);
        }
        if slots[result.idx].is_some() {
            proof {
                assert(answered(all, at + 1, result.idx as int));
                let j = choose|j: int|
                    at + 1 <= j < all.len() && 0 <= j && (#[trigger] all[j]).idx == result.idx;
                assert(all[at].idx == all[j].idx);
            }
            return Err(EmbeddingError::MissingResultError);
        }
        let ghost before = slots@;
        slots.set(result.idx, Some(result.vectors));
        proof {
            assert forall|i: int| 0 <= i < chunks implies ((#[trigger] slots@[i]) is Some
                <==> answered(all, at, i)) by {
                if i == result.idx {
                    assert(all[at].idx == i);
                } else {
                    if before[i] is Some {
                        assert(answered(all, at + 1, i));
                        let j = choose|j: int|
                            at + 1 <= j < all.len() && 0 <= j && (#[trigger] all[j]).idx == i;
                        assert(all[j].idx == i);
                    }
                    if answered(all, at, i) {
                        let j = choose|j: int|
                            at <= j < all.len() && 0 <= j && (#[trigger] all[j]).idx == i;
                        assert(j != at);
                        assert(all[j].idx == i);
                        assert(answered(all, at + 1, i));
                    }
                }
            }
            assert(pending@ =~= all.take(at));
        }
    }
    let mut at: usize = 0;
    while at < chunks
        invariant
            all == results@,
            chunks == sizes@.len(),
            all.len() == chunks,
            forall|j: int| 0 <= j < all.len() ==> (#[trigger] all[j]).idx < chunks,
            forall|j: int, k: int|
                0 <= j < k < all.len() ==> (#[trigger] all[j]).idx != (#[trigger] all[k]).idx,
            at <= chunks,
            slots@.len() == chunks,
            forall|i: int|
                0 <= i < chunks ==> ((#[trigger] slots@[i]) is Some <==> answered(all, 0, i)),
            forall|i: int| 0 <= i < at ==> #[trigger] answered(all, 0, i),
        decreases chunks - at,
    {
        if slots[at].is_none() {
            assert(!answered(all, 0, at as int));
            return Err(EmbeddingError::MissingResultError);
        }
        at += 1;
    }
    assert(placed(all, chunks as nat));
    proof {
        assert forall|i: int| 0 <= i < chunks implies #[trigger] slots@[i] == Some(
            all[result_for(all, i)].vectors,
        ) by {
            assert(answered(all, 0, i));
            let j = result_for(all, i);
            assert(slots@[all[j].idx as int] == Some(all[j].vectors));
        }
    }
    let mut at: usize = 0;
    while at < chunks
        invariant
            all == results@,
            placed(all, chunks as nat),
            at <= chunks,
            chunks == sizes@.len(),
            slots@.len() == chunks,
            forall|i: int|
                0 <= i < chunks ==> #[trigger] slots@[i] == Some(all[result_for(all, i)].vectors),
            forall|i: int| 0 <= i < at ==> chunk_of(all, i).len() == #[trigger] sizes@[i],
        decreases chunks - at,
    {
        match &slots[at] {
            Some(vectors) => {
                assert(vectors@ == chunk_of(all, at as int));
                if vectors.len() != sizes[at] {
                    return Err(EmbeddingError::EncodeError);
                }
            },
            None => {},
        }
        at += 1;
    }
    assert(sized(all, sizes@));
    let mut out: Vec<V> = Vec::new();
    let mut at: usize = 0;
    while at < chunks
        invariant
            at <= chunks,
            slots@.len() == chunks,
            forall|i: int|
                at <= i < chunks ==> #[trigger] slots@[i] == Some(all[result_for(all, i)].vectors),
            out@ == joined(all, at as nat),
        decreases chunks - at,
    {
        let mut slot: Option<Vec<V>> = None;
        slots.set_and_swap(at, &mut slot);
        match slot {
            Some(mut vectors) => {
                assert(vectors@ == chunk_of(all, at as int));
                out.append(&mut vectors);
            },
            None => {},
        }
        at += 1;
    }
    Ok(out)
}

proof fn lemma_joined<V>(results: Seq<EmbeddingResult<V>>, len: int, size: int, n: nat)
    requires
        0 <= size,
        0 <= len,
        forall|i: int|
            0 <= i < n ==> (#[trigger] chunk_of(results, i)).len() == chunk_start(len, size, i + 1)
                - chunk_start(len, size, i),
    ensures
        joined(results, n).len() == chunk_start(len, size, n as int),
        forall|i: int|
            0 <= i < n ==> joined(results, n).subrange(
                chunk_start(len, size, i),
                chunk_start(len, size, i + 1),
            ) == #[trigger] chunk_of(results, i),
    decreases n,
{
    assert(0 * size == 0) by (nonlinear_arith);
    if n > 0 {
        let m = (n - 1) as nat;
        lemma_joined(results, len, size, m);
        let before = joined(results, m);
        let after = joined(results, n);
        assert(after == before + chunk_of(results, n - 1));
        assert(chunk_of(results, n - 1).len() == chunk_start(len, size, n - 1 + 1) - chunk_start(
            len,
            size,
            n - 1,
        ));
        assert forall|i: int| 0 <= i < n implies after.subrange(
            chunk_start(len, size, i),
            chunk_start(len, size, i + 1),
        ) == #[trigger] chunk_of(results, i) by {
            lemma_chunk_start_ascends(len, size, i);
            if i < m {
                lemma_chunk_start_within(results, len, size, m, i);
                assert(after.subrange(chunk_start(len, size, i), chunk_start(len, size, i + 1))
                    =~= before.subrange(chunk_start(len, size, i), chunk_start(len, size, i + 1)));
            } else {
                assert(after.subrange(chunk_start(len, size, i), chunk_start(len, size, i + 1))
                    =~= chunk_of(results, i));
            }
        }
    }
}

proof fn lemma_chunk_start_ascends(len: int, size: int, idx: int)
    requires
        0 <= size,
        0 <= len,
        0 <= idx,
    ensures
        0 <= chunk_start(len, size, idx) <= chunk_start(len, size, idx + 1) <= len,
{
    assert(0 <= idx * size <= (idx + 1) * size) by (nonlinear_arith)
        requires
            0 <= size,
            0 <= idx,
    ;
}

proof fn lemma_chunk_start_within<V>(
    results: Seq<EmbeddingResult<V>>,
    len: int,
    size: int,
    m: nat,
    i: int,
)
    requires
        0 <= size,
        0 <= len,
        0 <= i < m,
        joined(results, m).len() == chunk_start(len, size, m as int),
    ensures
        chunk_start(len, size, i + 1) <= joined(results, m).len(),
{
    assert((i + 1) * size <= m * size) by (nonlinear_arith)
        requires
            0 <= size,
            0 <= i < m,
    ;
}

/// Orchestrated embedding keeps the length and the order of a batch. Let `tasks` share
/// `text` out among the workers and let `results` be assembled against the sizes of the
/// tasks' chunks. If that succeeds, then whatever order the results came in, there are as
/// many vectors as texts, and the vectors of each chunk stand where the chunk's texts stood.
pub proof fn lemma_assembled_in_order<V>(
    tasks: Seq<EmbeddingTask>,
    text: Seq<Seq<char>>,
    workers: nat,
    results: Seq<EmbeddingResult<V>>,
    sizes: Seq<usize>,
)
    requires
        workers > 0,
        shares_out(tasks, text, workers),
        sizes.len() == tasks.len(),
        forall|i: int| 0 <= i < tasks.len() ==> #[trigger] sizes[i] == tasks[i].contents@.len(),
        assembled(results, sizes) is Ok,
    ensures
        assembled(results, sizes)->Ok_0.len() == text.len(),
        forall|i: int|
            0 <= i < tasks.len() ==> assembled(results, sizes)->Ok_0.subrange(
                chunk_start(text.len() as int, chunk_size(text.len(), workers) as int, i),
                chunk_start(text.len() as int, chunk_size(text.len(), workers) as int, i + 1),
            ) == #[trigger] chunk_of(results, i),
{
    let len = text.len() as int;
    let size = chunk_size(text.len(), workers) as int;
    assert forall|i: int| 0 <= i < tasks.len() implies (#[trigger] chunk_of(results, i)).len()
        == chunk_start(len, size, i + 1) - chunk_start(len, size, i) by {
        lemma_chunk_start_ascends(len, size, i);
        assert(chunk_of(results, i).len() == sizes[i]);
        assert(sizes[i] == tasks[i].contents@.len());
        assert(task_texts(tasks[i]).len() == tasks[i].contents@.len());
        assert(task_texts(tasks[i]) == text.subrange(
            chunk_start(len, size, i),
            chunk_start(len, size, i + 1),
        ));
    }
    lemma_joined(results, len, size, tasks.len());
}

} // verus!
