//! Building datasets: many independent solved mazes, and the split of a
//! requested count into shards for parallel workers.

use crate::grid::{offsets, Direction};
use crate::maze::{check_size, size_error, Maze, MazeError};
use vstd::prelude::*;

verus! {

/// A maze as one dataset record holds it: carved into a perfect `width` ×
/// `height` maze, with distinct endpoints and a recorded shortest solution.
pub open spec fn is_record(m: Maze, width: int, height: int) -> bool {
    &&& m.wf()
    &&& m.width == width
    &&& m.height == height
    &&& m.layout().is_perfect()
    &&& m.start() != m.end()
    &&& m.is_solved()
    &&& m.path_followed()
}

/// `count` split over `workers` shards: each gets `count / workers`, and the
/// last one also takes the remainder.
pub open spec fn shard_plan(count: usize, workers: usize) -> Seq<usize> {
    Seq::new(
        workers as nat,
        |i: int|
            if i == workers - 1 {
                (count / workers + count % workers) as usize
            } else {
                (count / workers) as usize
            },
    )
}

pub open spec fn total(s: Seq<usize>) -> int
    decreases s.len(),
{
    if s.len() == 0 {
        0
    } else {
        s[0] + total(s.drop_first())
    }
}

/// All shards' records, shard after shard.
pub open spec fn joined(shards: Seq<Vec<Maze>>) -> Seq<Maze> {
    shards.map_values(|v: Vec<Maze>| v@).flatten()
}

proof fn lemma_total_split(s: Seq<usize>, q: int, r: int)
    requires
        s.len() >= 1,
        forall|i: int| 0 <= i < s.len() - 1 ==> s[i] == q,
        s[s.len() - 1] == q + r,
    ensures
        total(s) == s.len() * q + r,
    decreases s.len(),
{
    if s.len() > 1 {
        lemma_total_split(s.drop_first(), q, r);
        assert(s.len() * q == q + (s.len() - 1) * q) by (nonlinear_arith);
    } else {
        assert(total(s.drop_first()) == 0);
    }
}

/// The shard sizes add up to the requested count.
pub proof fn lemma_shard_plan_total(count: usize, workers: usize)
    requires
        workers >= 1,
    ensures
        total(shard_plan(count, workers)) == count,
{
    let q = (count / workers) as int;
    let r = (count % workers) as int;
    vstd::arithmetic::div_mod::lemma_fundamental_div_mod(count as int, workers as int);
    vstd::arithmetic::div_mod::lemma_mod_bound(count as int, workers as int);
    assert(q * workers <= count) by (nonlinear_arith)
        requires
            count == workers * q + r,
            r >= 0,
    ;
    assert(q + r <= count) by (nonlinear_arith)
        requires
            count == workers * q + r,
            workers >= 1,
            q >= 0,
    ;
    lemma_total_split(shard_plan(count, workers), q, r);
    assert(workers * q == q * workers) by (nonlinear_arith);
}

proof fn lemma_flatten_len(s: Seq<Seq<Maze>>, sizes: Seq<usize>)
    requires
        s.len() == sizes.len(),
        forall|i: int| 0 <= i < s.len() ==> #[trigger] s[i].len() == sizes[i],
    ensures
        s.flatten().len() == total(sizes),
    decreases s.len(),
{
    if s.len() > 0 {
        lemma_flatten_len(s.drop_first(), sizes.drop_first());
    }
}

/// Shards filled according to the plan, joined in shard order, hold exactly
/// the requested number of records.
pub proof fn lemma_joined_shards_count(count: usize, workers: usize, shards: Seq<Vec<Maze>>)
    requires
        workers >= 1,
        shards.len() == workers,
        forall|i: int| 0 <= i < workers ==> #[trigger] shards[i]@.len() == shard_plan(count, workers)[i],
    ensures
        joined(shards).len() == count,
{
    let views = shards.map_values(|v: Vec<Maze>| v@);
    lemma_flatten_len(views, shard_plan(count, workers));
    lemma_shard_plan_total(count, workers);
}

/// Sizes of `workers` shards that together hold `count` records.
pub fn shard_sizes(count: usize, workers: usize) -> (r: Vec<usize>)
    requires
        workers >= 1,
    ensures
        r@ == shard_plan(count, workers),
        total(r@) == count,
{
    let q = count / workers;
    let rem = count % workers;
    proof {
        vstd::arithmetic::div_mod::lemma_fundamental_div_mod(count as int, workers as int);
        assert(q + rem <= count) by (nonlinear_arith)
            requires
                count == workers * q + rem,
                workers >= 1,
                q >= 0,
        ;
    }
    let mut r: Vec<usize> = Vec::new();
    while r.len() < workers - 1
        invariant
            workers >= 1,
            r@.len() <= workers - 1,
            forall|i: int| 0 <= i < r@.len() ==> r@[i] == q,
        decreases workers - 1 - r@.len(),
    {
        r.push(q);
    }
    r.push(q + rem);
    proof {
        assert(r@ =~= shard_plan(count, workers));
        lemma_shard_plan_total(count, workers);
    }
    r
}

/// Relies on `num_cpus::get`: the number of CPUs this process may use,
/// which its documentation promises is at least one.
#[verifier::external_body]
fn available_workers() -> (r: usize)
    ensures
        r >= 1,
{
    num_cpus::get()
}

/// The shard sizes for `count` records over as many workers as this machine
/// offers.
pub fn plan_shards(count: usize) -> (r: Vec<usize>)
    ensures
        r@.len() >= 1,
        r@ == shard_plan(count, r@.len() as usize),
        total(r@) == count,
{
    let workers = available_workers();
    shard_sizes(count, workers)
}

/// Joins the shards' records into one list, shard after shard.
pub fn join_shards(shards: Vec<Vec<Maze>>) -> (r: Vec<Maze>)
    ensures
        r@ == joined(shards@),
{
    let ghost all = shards@;
    let mut rest = shards;
    let mut out: Vec<Maze> = Vec::new();
    let ghost mut done: int = 0;
    while rest.len() > 0
        invariant
            0 <= done <= all.len(),
            rest@ == all.subrange(done, all.len() as int),
            out@ + joined(rest@) == joined(all),
        decreases rest@.len(),
    {
        let ghost before = rest@;
        let mut first = rest.remove(0);
        proof {
            assert(before.map_values(|v: Vec<Maze>| v@).drop_first() =~= rest@.map_values(
                |v: Vec<Maze>| v@,
            ));
            assert(joined(before) == first@ + joined(rest@));
            done = done + 1;
            assert(rest@ =~= all.subrange(done, all.len() as int));
        }
        let ghost taken = first@;
        let ghost out0 = out@;
        out.append(&mut first);
        proof {
            assert(out@ == out0 + taken);
            assert(out@ + joined(rest@) =~= out0 + (taken + joined(rest@)));
        }
    }
    proof {
        assert(joined(rest@) =~= Seq::<Maze>::empty());
        assert(out@ + joined(rest@) =~= out@);
    }
    out
}

/// `count` independent records, each a fresh perfect maze of the given size
/// solved by breadth-first search. The size is refused as `Maze::new` refuses it.
pub fn generate_mazes(count: usize, width: usize, height: usize, rng: &mut rand::rngs::StdRng) -> (r:
    Result<Vec<Maze>, MazeError>)
    ensures
        match r {
            Ok(v) => size_error(width as int, height as int) is None && v@.len() == count && forall|
                i: int,
            | 0 <= i < count ==> is_record(#[trigger] v@[i], width as int, height as int),
            Err(e) => size_error(width as int, height as int) == Some(e),
        },
{
    if let Some(e) = check_size(width, height) {
        return Err(e);
    }
    let mut out: Vec<Maze> = Vec::new();
    while out.len() < count
        invariant
            size_error(width as int, height as int) is None,
            out@.len() <= count,
            forall|i: int| 0 <= i < out@.len() ==> is_record(#[trigger] out@[i], width as int, height as int),
        decreases count - out@.len(),
    {
        let mut m = match Maze::new(width, height, rng) {
            Ok(m) => m,
            Err(e) => {
                return Err(e);
            },
        };
        let ghost before = m;
        proof {
            assert(before.layout().reachable(before.start(), before.end()));
        }
        let solved = m.bfs_solve();
        proof {
            let p = solved->0;
            assert(m.layout() == before.layout());
            assert(m.layout().is_shortest(m.start(), m.end(), p@) && m.ideal_path@ == offsets(p@));
        }
        out.push(m);
    }
    Ok(out)
}

} // verus!
