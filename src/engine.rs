use crate::index::{views, Index};
use rayon::iter::{IndexedParallelIterator, ParallelIterator};
use rayon::slice::ParallelSlice;
use vstd::arithmetic::div_mod::{lemma_fundamental_div_mod, lemma_mod_pos_bound};
use vstd::prelude::*;

verus! {

/// The paths of the source set that the target set lacks.
pub open spec fn diff_of(source: Set<Seq<char>>, target: Set<Seq<char>>) -> Set<Seq<char>> {
    source.difference(target)
}

/// Against an empty target every source path is kept.
pub proof fn lemma_empty_target(source: Set<Seq<char>>)
    ensures
        diff_of(source, Set::empty()) == source,
{
    assert(diff_of(source, Set::empty()) =~= source);
}

/// A tree compared with itself leaves nothing.
pub proof fn lemma_identical_trees(source: Set<Seq<char>>)
    ensures
        diff_of(source, source) == Set::<Seq<char>>::empty(),
{
    assert(diff_of(source, source) =~= Set::<Seq<char>>::empty());
}

/// The paths of `paths`, in order, that `target` lacks.
pub open spec fn absent_from(paths: Seq<Seq<char>>, target: Set<Seq<char>>) -> Seq<Seq<char>> {
    paths.filter(|p: Seq<char>| !target.contains(p))
}

/// How many chunks of at most `size` items cover `n` items.
pub open spec fn chunk_count(n: nat, size: nat) -> nat
    recommends
        size > 0,
{
    ((n + size - 1) as int / size as int) as nat
}

/// The `i`-th run of `size` consecutive items of `s`; the last run may be shorter.
pub open spec fn chunk_of<A>(s: Seq<A>, size: nat, i: int) -> Seq<A> {
    let lo = i * size;
    let hi = if lo + size < s.len() {
        lo + size
    } else {
        s.len() as int
    };
    s.subrange(lo, hi)
}

/// The paths that some chunk of `paths` keeps when each chunk is compared
/// with `target` on its own.
pub open spec fn chunked_diff(paths: Seq<Seq<char>>, target: Set<Seq<char>>, size: nat) -> Set<
    Seq<char>,
> {
    Set::new(
        |p: Seq<char>|
            exists|i: int|
                0 <= i < chunk_count(paths.len(), size) && #[trigger] absent_from(
                    chunk_of(paths, size, i),
                    target,
                ).contains(p),
    )
}

/// The paths that the first `n` parts hold.
pub open spec fn union_of(parts: Seq<Seq<Seq<char>>>, n: int) -> Set<Seq<char>>
    decreases n,
{
    if n <= 0 {
        Set::empty()
    } else {
        union_of(parts, n - 1) + parts[n - 1].to_set()
    }
}

proof fn lemma_union_of(parts: Seq<Seq<Seq<char>>>, n: int, p: Seq<char>)
    requires
        0 <= n <= parts.len(),
    ensures
        union_of(parts, n).contains(p) <==> exists|j: int|
            0 <= j < n && #[trigger] parts[j].contains(p),
    decreases n,
{
    if n > 0 {
        lemma_union_of(parts, n - 1, p);
        if parts[n - 1].contains(p) {
            assert(parts[n - 1].to_set().contains(p));
        }
        if union_of(parts, n).contains(p) && !union_of(parts, n - 1).contains(p) {
            assert(parts[n - 1].to_set().contains(p));
            assert(parts[n - 1].contains(p));
        }
    }
}

/// The chunk that holds item `k`, and where chunks start.
proof fn lemma_chunk_bounds(n: int, size: int, k: int)
    requires
        0 < size,
        0 <= k < n,
    ensures
        0 <= k / size < chunk_count(n as nat, size as nat),
        (k / size) * size <= k < (k / size) * size + size,
{
    lemma_fundamental_div_mod(k, size);
    lemma_mod_pos_bound(k, size);
    let x = n + size - 1;
    lemma_fundamental_div_mod(x, size);
    lemma_mod_pos_bound(x, size);
    let q = k / size;
    let c = x / size;
    assert(0 <= q) by (nonlinear_arith)
        requires
            k == size * q + k % size,
            0 <= k,
            0 <= k % size < size,
    ;
    assert(q < c) by (nonlinear_arith)
        requires
            k == size * q + k % size,
            0 <= k % size < size,
            x == size * c + x % size,
            0 <= x % size < size,
            k < n,
            x == n + size - 1,
            0 < size,
    ;
    assert(q * size <= k < q * size + size) by (nonlinear_arith)
        requires
            k == size * q + k % size,
            0 <= k % size < size,
    ;
}

/// Every chunk that `chunk_count` counts starts inside the sequence.
proof fn lemma_chunk_start(n: int, size: int, i: int)
    requires
        0 < size,
        0 <= n,
        0 <= i < chunk_count(n as nat, size as nat),
    ensures
        0 <= i * size < n,
{
    let x = n + size - 1;
    lemma_fundamental_div_mod(x, size);
    lemma_mod_pos_bound(x, size);
    let c = x / size;
    assert(0 <= i * size < n) by (nonlinear_arith)
        requires
            x == size * c + x % size,
            0 <= x % size < size,
            x == n + size - 1,
            0 <= i < c,
            0 < size,
    ;
}

/// Comparing chunk by chunk finds exactly the set difference, whatever the
/// chunk size.
pub proof fn lemma_chunked_diff_is_difference(
    paths: Seq<Seq<char>>,
    target: Set<Seq<char>>,
    size: nat,
)
    requires
        size > 0,
    ensures
        chunked_diff(paths, target, size) == diff_of(paths.to_set(), target),
{
    let pred = |p: Seq<char>| !target.contains(p);
    assert forall|p: Seq<char>|
        chunked_diff(paths, target, size).contains(p) <==> diff_of(
            paths.to_set(),
            target,
        ).contains(p) by {
        if chunked_diff(paths, target, size).contains(p) {
            let i = choose|i: int|
                0 <= i < chunk_count(paths.len(), size) && #[trigger] absent_from(
                    chunk_of(paths, size, i),
                    target,
                ).contains(p);
            let c = chunk_of(paths, size, i);
            lemma_chunk_start(paths.len() as int, size as int, i);
            c.lemma_filter_contains_rev(pred, p);
            let j = choose|j: int| 0 <= j < c.len() && c[j] == p;
            assert(paths[i * size + j] == p);
            assert(paths.to_set().contains(p));
            let f = c.filter(pred);
            let m = choose|m: int| 0 <= m < f.len() && f[m] == p;
            c.lemma_filter_pred(pred, m);
        }
        if diff_of(paths.to_set(), target).contains(p) {
            assert(paths.contains(p));
            let k = choose|k: int| 0 <= k < paths.len() && paths[k] == p;
            lemma_chunk_bounds(paths.len() as int, size as int, k);
            let i = k / (size as int);
            let c = chunk_of(paths, size, i);
            assert(c[k - i * size] == p);
            c.lemma_filter_contains(pred, k - i * size);
            assert(absent_from(c, target).contains(p));
        }
    }
    assert(chunked_diff(paths, target, size) =~= diff_of(paths.to_set(), target));
}

/// A chunk of one path at a time and a single chunk of all paths give the
/// same result.
pub proof fn lemma_chunking_invariance(paths: Seq<Seq<char>>, target: Set<Seq<char>>)
    requires
        paths.len() > 0,
    ensures
        chunked_diff(paths, target, 1) == chunked_diff(paths, target, paths.len()),
{
    lemma_chunked_diff_is_difference(paths, target, 1);
    lemma_chunked_diff_is_difference(paths, target, paths.len());
}

/// The chunks of `size` consecutive items that cover `s`, in order.
pub open spec fn chunks<A>(s: Seq<A>, size: nat) -> Seq<Seq<A>> {
    Seq::new(chunk_count(s.len(), size), |i: int| chunk_of(s, size, i))
}

/// The first `j` chunks, put back together, give the front of `s` that they
/// cover.
proof fn lemma_chunks_prefix<A>(s: Seq<A>, size: nat, j: int)
    requires
        size > 0,
        0 <= j <= chunk_count(s.len(), size),
    ensures
        Seq::new(j as nat, |i: int| chunk_of(s, size, i)).flatten() == s.subrange(
            0,
            if j * size < s.len() {
                j * size
            } else {
                s.len() as int
            },
        ),
    decreases j,
{
    let n = s.len() as int;
    if j == 0 {
        assert(Seq::new(0, |i: int| chunk_of(s, size, i)) =~= Seq::<Seq<A>>::empty());
        assert(s.subrange(0, 0) =~= Seq::<A>::empty());
    } else {
        let k = j - 1;
        lemma_chunks_prefix(s, size, k);
        lemma_chunk_start(n, size as int, k);
        let prev = Seq::new(k as nat, |i: int| chunk_of(s, size, i));
        let next = Seq::new(j as nat, |i: int| chunk_of(s, size, i));
        assert(next =~= prev.push(chunk_of(s, size, k)));
        prev.lemma_flatten_push(chunk_of(s, size, k));
        let hi = if k * size + size < n {
            k * size + size
        } else {
            n
        };
        assert(s.subrange(0, k * size) + s.subrange(k * size, hi) =~= s.subrange(0, hi));
        assert(j * size == k * size + size) by (nonlinear_arith)
            requires
                k == j - 1,
        ;
    }
}

/// The chunks, put back together, give the sequence they were cut from.
proof fn lemma_chunks_flatten<A>(s: Seq<A>, size: nat)
    requires
        size > 0,
    ensures
        chunks(s, size).flatten() == s,
{
    let n = s.len() as int;
    let c = chunk_count(s.len(), size) as int;
    lemma_chunks_prefix(s, size, c);
    let d = size as int;
    let x = n + d - 1;
    lemma_fundamental_div_mod(x, d);
    lemma_mod_pos_bound(x, d);
    assert(c * d >= n) by (nonlinear_arith)
        requires
            x == d * c + x % d,
            x % d < d,
            x == n + d - 1,
    ;
    assert(s.subrange(0, n) =~= s);
    assert(chunks(s, size) =~= Seq::new(c as nat, |i: int| chunk_of(s, size, i)));
}

/// Filtering the pieces one by one and putting them together is filtering
/// the whole.
proof fn lemma_absent_from_flatten(xs: Seq<Seq<Seq<char>>>, target: Set<Seq<char>>)
    ensures
        absent_from(xs.flatten(), target) == xs.map_values(
            |x: Seq<Seq<char>>| absent_from(x, target),
        ).flatten(),
    decreases xs.len(),
{
    let f = |x: Seq<Seq<char>>| absent_from(x, target);
    if xs.len() == 0 {
        reveal(Seq::filter);
        assert(xs.map_values(f) =~= Seq::<Seq<Seq<char>>>::empty());
    } else {
        let init = xs.drop_last();
        lemma_absent_from_flatten(init, target);
        assert(xs =~= init.push(xs.last()));
        init.lemma_flatten_push(xs.last());
        assert(xs.map_values(f) =~= init.map_values(f).push(f(xs.last())));
        init.map_values(f).lemma_flatten_push(f(xs.last()));
        Seq::filter_distributes_over_add(
            init.flatten(),
            xs.last(),
            |p: Seq<char>| !target.contains(p),
        );
    }
}

/// Filtering keeps paths distinct.
proof fn lemma_absent_from_no_duplicates(paths: Seq<Seq<char>>, target: Set<Seq<char>>)
    requires
        paths.no_duplicates(),
    ensures
        absent_from(paths, target).no_duplicates(),
    decreases paths.len(),
{
    let pred = |p: Seq<char>| !target.contains(p);
    if paths.len() == 0 {
        reveal(Seq::filter);
    } else {
        let init = paths.drop_last();
        let x = paths.last();
        assert(paths =~= init.push(x));
        assert(init.no_duplicates());
        lemma_absent_from_no_duplicates(init, target);
        init.lemma_filter_push(x, pred);
        if init.filter(pred).contains(x) {
            init.lemma_filter_contains_rev(pred, x);
            let k = choose|k: int| 0 <= k < init.len() && init[k] == x;
            assert(paths[k] == paths[paths.len() - 1]);
        }
    }
}

/// The paths of `chunk`, in order, that `target` lacks.
pub fn diff_chunk(chunk: &[String], target: &Index) -> (r: Vec<String>)
    ensures
        views(r@) == absent_from(views(chunk@), target@),
{
    let mut out: Vec<String> = Vec::new();
    let mut i: usize = 0;
    proof {
        assert(views(chunk@.subrange(0, 0)) =~= Seq::<Seq<char>>::empty());
        reveal(Seq::filter);
        assert(views(out@) =~= absent_from(views(chunk@.subrange(0, 0)), target@));
    }
    while i < chunk.len()
        invariant
            i <= chunk@.len(),
            views(out@) == absent_from(views(chunk@.subrange(0, i as int)), target@),
        decreases chunk@.len() - i,
    {
        let path = &chunk[i];
        let absent = !target.contains(path.as_str());
        proof {
            let pred = |p: Seq<char>| !target@.contains(p);
            assert(views(chunk@.subrange(0, i + 1)) =~= views(chunk@.subrange(0, i as int)).push(
                path@,
            ));
            views(chunk@.subrange(0, i as int)).lemma_filter_push(path@, pred);
        }
        if absent {
            let ghost before = out@;
            out.push(path.clone());
            proof {
                assert(views(out@) =~= views(before).push(path@));
            }
        }
        i = i + 1;
    }
    proof {
        assert(chunk@.subrange(0, chunk@.len() as int) =~= chunk@);
    }
    out
}

/// Relies on rayon's `ParallelSlice::par_chunks`, which cuts `paths` into
/// consecutive chunks of `size` items, the last one possibly shorter (and
/// panics on a size of zero), and on `collect_into_vec`, which keeps the
/// chunks' order. Each chunk goes through `diff_chunk` on a worker thread.
#[verifier::external_body]
fn par_diff_chunks(paths: &Vec<String>, size: usize, target: &Index) -> (r: Vec<Vec<String>>)
    requires
        size > 0,
    ensures
        r@.len() == chunk_count(paths@.len(), size as nat),
        forall|i: int|
            0 <= i < r@.len() ==> views(#[trigger] r@[i]@) == absent_from(
                chunk_of(views(paths@), size as nat, i),
                target@,
            ),
{
    let mut out = Vec::new();
    paths.par_chunks(size).map(|c| diff_chunk(c, target)).collect_into_vec(&mut out);
    out
}

/// The partial results of the chunks, as seen through their path strings.
pub open spec fn part_views(parts: Seq<Vec<String>>) -> Seq<Seq<Seq<char>>> {
    parts.map_values(|v: Vec<String>| views(v@))
}

/// Gathers the partial results of all chunks into one index.
pub fn merge_parts(parts: &Vec<Vec<String>>) -> (r: Index)
    ensures
        r.wf(),
        r@ == union_of(part_views(parts@), parts@.len() as int),
        part_views(parts@).flatten().no_duplicates() ==> r.order() == part_views(parts@).flatten(),
{
    let ghost pv = part_views(parts@);
    let ghost n = parts@.len() as int;
    let ghost distinct = pv.flatten().no_duplicates();
    let mut r = Index::new();
    let mut i: usize = 0;
    proof {
        assert(pv.subrange(0, n) =~= pv);
        assert(r.order() + pv.subrange(0, n).flatten() =~= pv.flatten());
    }
    while i < parts.len()
        invariant
            i <= parts@.len(),
            n == parts@.len(),
            pv == part_views(parts@),
            distinct == pv.flatten().no_duplicates(),
            r.wf(),
            r@ == union_of(part_views(parts@), i as int),
            distinct ==> r.order() + pv.subrange(i as int, n).flatten() == pv.flatten(),
        decreases parts@.len() - i,
    {
        let part = &parts[i];
        let mut k: usize = 0;
        proof {
            assert(pv.subrange(i as int, n).drop_first() =~= pv.subrange(i + 1, n));
            assert(pv[i as int] == views(part@));
            assert(views(part@).subrange(0, part@.len() as int) =~= views(part@));
            assert(r.order() + views(part@).subrange(0, part@.len() as int) + pv.subrange(
                i + 1,
                n,
            ).flatten() =~= r.order() + pv.subrange(i as int, n).flatten());
            assert(views(part@).subrange(0, 0).to_set() =~= Set::<Seq<char>>::empty());
            assert(r@ =~= union_of(part_views(parts@), i as int) + views(part@).subrange(
                0,
                0,
            ).to_set());
        }
        while k < part.len()
            invariant
                i < parts@.len(),
                part == parts@[i as int],
                k <= part@.len(),
                r.wf(),
                r@ == union_of(part_views(parts@), i as int) + views(part@).subrange(
                    0,
                    k as int,
                ).to_set(),
                n == parts@.len(),
                pv == part_views(parts@),
                distinct == pv.flatten().no_duplicates(),
                distinct ==> r.order() + views(part@).subrange(k as int, part@.len() as int)
                    + pv.subrange(i + 1, n).flatten() == pv.flatten(),
            decreases part@.len() - k,
        {
            let ghost before = r;
            proof {
                if distinct {
                    let x = part@[k as int]@;
                    let rest = views(part@).subrange(k as int, part@.len() as int) + pv.subrange(
                        i + 1,
                        n,
                    ).flatten();
                    let full = r.order() + rest;
                    let len = r.order().len() as int;
                    assert(full =~= pv.flatten());
                    assert(full[len] == x);
                    assert forall|m: int| 0 <= m < len implies r.order()[m] != x by {
                        assert(full[m] == r.order()[m]);
                    }
                    r.lemma_order_matches();
                    assert(!r.order().contains(x));
                    assert(!r@.contains(x));
                }
            }
            r.add(part[k].as_str());
            proof {
                if distinct {
                    assert(r.order() + views(part@).subrange(k + 1, part@.len() as int)
                        + pv.subrange(i + 1, n).flatten() =~= before.order() + views(
                        part@,
                    ).subrange(k as int, part@.len() as int) + pv.subrange(i + 1, n).flatten());
                }
            }
            proof {
                let pv = views(part@);
                assert(pv.subrange(0, k + 1) =~= pv.subrange(0, k as int).push(part@[k as int]@));
                pv.subrange(0, k as int).lemma_push_to_set_commute(part@[k as int]@);
                assert(r@ =~= union_of(part_views(parts@), i as int) + pv.subrange(
                    0,
                    k + 1,
                ).to_set());
            }
            k = k + 1;
        }
        proof {
            assert(views(part@).subrange(0, part@.len() as int) =~= views(part@));
            assert(part_views(parts@)[i as int] == views(part@));
            assert(views(part@).subrange(part@.len() as int, part@.len() as int)
                =~= Seq::<Seq<char>>::empty());
            assert(r.order() + views(part@).subrange(part@.len() as int, part@.len() as int)
                + pv.subrange(i + 1, n).flatten() =~= r.order() + pv.subrange(i + 1, n).flatten());
        }
        i = i + 1;
    }
    proof {
        assert(pv.subrange(n, n) =~= Seq::<Seq<Seq<char>>>::empty());
        assert(r.order() + pv.subrange(n, n).flatten() =~= r.order());
    }
    r
}

/// Paths per chunk when `n` paths are shared among `workers` workers: `n / workers`,
/// and at least one.
pub fn chunk_size(n: usize, workers: usize) -> (r: usize)
    requires
        workers > 0,
    ensures
        r == if n / workers == 0 {
            1
        } else {
            n / workers
        },
{
    let per_worker = n / workers;
    if per_worker == 0 {
        1
    } else {
        per_worker
    }
}

/// The paths of `source` that `target` lacks, in the order of `source`,
/// found chunk by chunk, with `size` paths per chunk, on a pool of worker
/// threads.
pub fn diff_in_chunks(source: &Index, target: &Index, size: usize) -> (r: Index)
    requires
        source.wf(),
        size > 0,
    ensures
        r.wf(),
        r@ == diff_of(source@, target@),
        r.order() == absent_from(source.order(), target@),
{
    let paths = source.paths();
    let parts = par_diff_chunks(paths, size, target);
    let r = merge_parts(&parts);
    proof {
        let pv = views(paths@);
        let ps = part_views(parts@);
        assert forall|p: Seq<char>| r@.contains(p) <==> chunked_diff(pv, target@, size as nat).contains(p) by {
            lemma_union_of(ps, ps.len() as int, p);
            if r@.contains(p) {
                let j = choose|j: int| 0 <= j < ps.len() && #[trigger] ps[j].contains(p);
                assert(ps[j] == views(parts@[j]@));
                assert(absent_from(chunk_of(pv, size as nat, j), target@).contains(p));
            }
            if chunked_diff(pv, target@, size as nat).contains(p) {
                let j = choose|j: int|
                    0 <= j < chunk_count(pv.len(), size as nat) && #[trigger] absent_from(
                        chunk_of(pv, size as nat, j),
                        target@,
                    ).contains(p);
                assert(ps[j] == views(parts@[j]@));
                assert(ps[j].contains(p));
            }
        }
        assert(r@ =~= chunked_diff(pv, target@, size as nat));
        lemma_chunked_diff_is_difference(pv, target@, size as nat);
        let cs = chunks(pv, size as nat);
        assert(ps =~= cs.map_values(|x: Seq<Seq<char>>| absent_from(x, target@)));
        lemma_absent_from_flatten(cs, target@);
        lemma_chunks_flatten(pv, size as nat);
        lemma_absent_from_no_duplicates(pv, target@);
    }
    r
}

/// The paths of `source` that `target` lacks, in the order of `source`, with
/// the work shared among `workers` worker threads.
pub fn diff_indexes(source: &Index, target: &Index, workers: usize) -> (r: Index)
    requires
        source.wf(),
        workers > 0,
    ensures
        r.wf(),
        r@ == diff_of(source@, target@),
        r.order() == absent_from(source.order(), target@),
{
    let size = chunk_size(source.len(), workers);
    diff_in_chunks(source, target, size)
}

} // verus!
