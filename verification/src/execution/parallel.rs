//! Partitioning of a batch into contiguous chunks for parallel evaluation,
//! and in-order gathering of the chunks' results.
use vstd::prelude::*;

verus! {

/// Most rows an operator buffers or hands to workers at once.
pub const BATCH_SIZE: usize = 1024;

/// Most workers an operator may use.
pub const MAX_PARALLELISM: usize = 64;

/// `workers` clamped to `1..=MAX_PARALLELISM`.
pub open spec fn spec_clamp_parallelism(workers: usize) -> usize {
    if workers < 1 {
        1
    } else if workers > MAX_PARALLELISM {
        MAX_PARALLELISM
    } else {
        workers
    }
}

/// Clamp a requested worker count to `1..=64`.
pub fn clamp_parallelism(workers: usize) -> (r: usize)
    ensures
        r == spec_clamp_parallelism(workers),
        1 <= r <= MAX_PARALLELISM,
{
    if workers < 1 {
        1
    } else if workers > MAX_PARALLELISM {
        MAX_PARALLELISM
    } else {
        workers
    }
}

/// Workers actually used for `len` items: at least one, at most one per item.
pub open spec fn spec_worker_count(len: nat, workers: nat) -> nat {
    let w = if workers < 1 { 1 } else { workers };
    if w > len { len } else { w }
}

/// Size of each chunk (the last may be shorter).
pub open spec fn spec_chunk_size(len: nat, workers: nat) -> nat {
    let w = spec_worker_count(len, workers);
    if w == 0 { 0 } else { ((len + w - 1) / (w as int)) as nat }
}

/// Number of chunks.
pub open spec fn spec_chunk_count(len: nat, workers: nat) -> nat {
    let c = spec_chunk_size(len, workers);
    if c == 0 { 0 } else { ((len + c - 1) / (c as int)) as nat }
}

/// The `i`-th chunk as a half-open index range.
pub open spec fn spec_chunk(len: nat, workers: nat, i: int) -> (int, int) {
    let c = spec_chunk_size(len, workers) as int;
    let end = (i + 1) * c;
    (i * c, if end > len { len as int } else { end })
}

proof fn lemma_chunk_arith(len: nat, w: nat, c: nat)
    requires
        1 <= w <= len,
        c == (len + w - 1) / (w as int),
    ensures
        1 <= c <= len,
        c * w >= len,
        ({
            let n = (len + c - 1) / (c as int);
            &&& 1 <= n <= w
            &&& (n - 1) * c < len <= n * c
        }),
{
    assert(c >= 1) by (nonlinear_arith)
        requires
            1 <= w <= len,
            c == (len + w - 1) / (w as int),
    ;
    assert(c <= len) by (nonlinear_arith)
        requires
            1 <= w <= len,
            c == (len + w - 1) / (w as int),
    ;
    assert(c * w >= len) by (nonlinear_arith)
        requires
            1 <= w,
            c == (len + w - 1) / (w as int),
    ;
    let n = (len + c - 1) / (c as int);
    assert((n - 1) * c < len <= n * c) by (nonlinear_arith)
        requires
            1 <= c,
            1 <= len,
            n == (len + c - 1) / (c as int),
    ;
    assert(n <= w) by (nonlinear_arith)
        requires
            1 <= c,
            1 <= w,
            c * w >= len,
            (n - 1) * c < len,
    ;
    assert(n >= 1) by (nonlinear_arith)
        requires
            1 <= c,
            1 <= len,
            n == (len + c - 1) / (c as int),
    ;
}

/// The contiguous chunks that `len` items are split into for `workers`
/// workers: `ceil(len / w)` items each (the last chunk possibly fewer),
/// where `w` is `workers` clamped to `1..=len`. Empty input gives no chunks.
pub fn chunk_ranges(len: usize, workers: usize) -> (r: Vec<(usize, usize)>)
    ensures
        r@.len() == spec_chunk_count(len as nat, workers as nat),
        r@.len() <= spec_worker_count(len as nat, workers as nat),
        forall|i: int|
            0 <= i < r@.len() ==> (#[trigger] r@[i]).0 == spec_chunk(len as nat, workers as nat, i).0
                && r@[i].1 == spec_chunk(len as nat, workers as nat, i).1,
        forall|i: int| 0 <= i < r@.len() ==> (#[trigger] r@[i]).0 < r@[i].1,
        len > 0 ==> r@.len() > 0 && r@[0].0 == 0 && r@[r@.len() - 1].1 == len,
        forall|i: int| 0 <= i < r@.len() - 1 ==> (#[trigger] r@[i]).1 == r@[i + 1].0,
{
    let mut ranges: Vec<(usize, usize)> = Vec::new();
    if len == 0 {
        return ranges;
    }
    let w: usize = if workers < 1 {
        1
    } else if workers > len {
        len
    } else {
        workers
    };
    let q: usize = len / w;
    assert(len % w != 0 ==> q < len) by (nonlinear_arith)
        requires
            1 <= w,
            q == len / w,
    ;
    let c: usize = if len % w == 0 { q } else { q + 1 };
    assert(c == (len + w - 1) / (w as int)) by (nonlinear_arith)
        requires
            1 <= w,
            q == len / w,
            c == if len % w == 0 { q as int } else { q + 1 },
    ;
    proof {
        lemma_chunk_arith(len as nat, w as nat, c as nat);
    }
    let ghost n: nat = ((len + c - 1) / (c as int)) as nat;
    let mut start: usize = 0;
    let ghost mut i: int = 0;
    while start < len
        invariant
            1 <= c <= len,
            1 <= n <= w,
            (n - 1) * c < len <= n * c,
            c == spec_chunk_size(len as nat, workers as nat),
            n == spec_chunk_count(len as nat, workers as nat),
            w == spec_worker_count(len as nat, workers as nat),
            0 <= i <= n,
            start == if i < n { i * c } else { len as int },
            i < n ==> start < len,
            ranges@.len() == i,
            forall|k: int|
                0 <= k < i ==> (#[trigger] ranges@[k]).0 == spec_chunk(len as nat, workers as nat, k).0
                    && ranges@[k].1 == spec_chunk(len as nat, workers as nat, k).1,
        decreases len - start,
    {
        let end: usize = if start > len - c { len } else { start + c };
        proof {
            assert((i + 1) * c == i * c + c) by (nonlinear_arith);
            assert(i < n);
            if i + 1 < n {
                assert((i + 1) * c <= (n - 1) * c) by (nonlinear_arith)
                    requires
                        i + 1 <= n - 1,
                        c >= 1,
                ;
            } else {
                assert(i + 1 == n);
            }
        }
        ranges.push((start, end));
        start = end;
        proof {
            i = i + 1;
        }
    }
    proof {
        assert forall|k: int| 0 <= k < ranges@.len() implies (#[trigger] ranges@[k]).0 < ranges@[k].1 by {
            assert(k * c < len) by (nonlinear_arith)
                requires
                    0 <= k <= n - 1,
                    (n - 1) * c < len,
                    c >= 1,
            ;
            assert((k + 1) * c > k * c) by (nonlinear_arith)
                requires
                    c >= 1,
            ;
        }
        assert forall|k: int| 0 <= k < ranges@.len() - 1 implies (#[trigger] ranges@[k]).1 == ranges@[k + 1].0 by {
            assert((k + 1) * c <= (n - 1) * c) by (nonlinear_arith)
                requires
                    k + 1 <= n - 1,
                    c >= 1,
            ;
        }
    }
    ranges
}

/// Concatenation of the chunks' outputs, in chunk order.
pub open spec fn flatten<R>(parts: Seq<Seq<R>>) -> Seq<R>
    decreases parts.len(),
{
    if parts.len() == 0 {
        Seq::empty()
    } else {
        flatten(parts.drop_last()) + parts.last()
    }
}


/// What the workers compute: `f` applied to each chunk of `items`.
pub open spec fn mapped_chunks<T, R>(items: Seq<T>, workers: nat, f: spec_fn(T) -> R) -> Seq<Seq<R>> {
    Seq::new(
        spec_chunk_count(items.len(), workers),
        |i: int|
            items.subrange(
                spec_chunk(items.len(), workers, i).0,
                spec_chunk(items.len(), workers, i).1,
            ).map_values(f),
    )
}

proof fn lemma_mapped_prefix<T, R>(items: Seq<T>, workers: nat, f: spec_fn(T) -> R, k: int)
    requires
        0 <= k <= spec_chunk_count(items.len(), workers),
        items.len() > 0,
    ensures
        flatten(mapped_chunks(items, workers, f).subrange(0, k)) == items.subrange(
            0,
            if k == 0 {
                0
            } else {
                spec_chunk(items.len(), workers, k - 1).1
            },
        ).map_values(f),
    decreases k,
{
    let len = items.len();
    let w = spec_worker_count(len, workers);
    let c = spec_chunk_size(len, workers);
    lemma_chunk_arith(len, w, c);
    let parts = mapped_chunks(items, workers, f);
    if k == 0 {
        assert(parts.subrange(0, 0) =~= Seq::<Seq<R>>::empty());
        assert(items.subrange(0, 0).map_values(f) =~= Seq::<R>::empty());
    } else {
        lemma_mapped_prefix(items, workers, f, k - 1);
        assert(parts.subrange(0, k).drop_last() =~= parts.subrange(0, k - 1));
        let (a, b) = spec_chunk(len, workers, k - 1);
        assert(a == (k - 1) * c);
        assert(k * c == (k - 1) * c + c) by (nonlinear_arith);
        assert((k - 1) * c < len) by (nonlinear_arith)
            requires
                k <= (len + c - 1) / (c as int),
                (((len + c - 1) / (c as int)) - 1) * c < len,
                c >= 1,
        ;
        let prev_end = if k - 1 == 0 { 0 } else { spec_chunk(len, workers, k - 2).1 };
        if k - 1 > 0 {
            assert((k - 1) * c <= len);
        }
        assert(prev_end == a);
        assert(items.subrange(0, b).map_values(f) =~= items.subrange(0, a).map_values(f)
            + items.subrange(a, b).map_values(f));
    }
}

/// Parallel evaluation is order preserving: evaluating each chunk and
/// gathering the chunks' outputs in chunk order gives exactly the serial
/// map over the items, for every worker count.
pub proof fn lemma_chunked_map_is_map<T, R>(items: Seq<T>, workers: nat, f: spec_fn(T) -> R)
    ensures
        flatten(mapped_chunks(items, workers, f)) == items.map_values(f),
{
    let len = items.len();
    if len == 0 {
        assert(mapped_chunks(items, workers, f) =~= Seq::<Seq<R>>::empty());
        assert(items.map_values(f) =~= Seq::<R>::empty());
    } else {
        let w = spec_worker_count(len, workers);
        let c = spec_chunk_size(len, workers);
        lemma_chunk_arith(len, w, c);
        let n = spec_chunk_count(len, workers);
        lemma_mapped_prefix(items, workers, f, n as int);
        assert(mapped_chunks(items, workers, f).subrange(0, n as int) =~= mapped_chunks(
            items,
            workers,
            f,
        ));
        assert(n * c == (n - 1) * c + c) by (nonlinear_arith);
        assert(spec_chunk(len, workers, n - 1).1 == len);
        assert(items.subrange(0, len as int) =~= items);
    }
}

/// Gather the workers' outputs in input order.
pub fn gather_in_order<R>(parts: Vec<Vec<R>>) -> (r: Vec<R>)
    ensures
        r@ == flatten(parts@.map_values(|p: Vec<R>| p@)),
{
    let ghost views = parts@.map_values(|p: Vec<R>| p@);
    let mut output: Vec<R> = Vec::new();
    let mut parts = parts;
    let ghost mut k: int = 0;
    while parts.len() > 0
        invariant
            0 <= k <= views.len(),
            parts@.len() == views.len() - k,
            forall|j: int| 0 <= j < parts@.len() ==> #[trigger] parts@[j]@ == views[k + j],
            output@ == flatten(views.subrange(0, k)),
        decreases parts@.len(),
    {
        let mut p = parts.remove(0);
        proof {
            assert(p@ == views[k]);
            assert(views.subrange(0, k + 1).drop_last() =~= views.subrange(0, k));
            assert(forall|j: int| 0 <= j < parts@.len() ==> #[trigger] parts@[j]@ == views[k + 1 + j]);
        }
        output.append(&mut p);
        proof {
            k = k + 1;
        }
    }
    assert(views.subrange(0, k) =~= views);
    output
}

} // verus!
