//! The dependency graph of an index: its edges, and what is reached from a
//! set of packets within a number of hops, in either direction.

use crate::index::{distinct_ids, position_of, Packet};
use vstd::prelude::*;

verus! {

/// The direction in which edges are followed.
#[derive(Clone, Copy, Debug, PartialEq, Eq, Structural)]
pub enum Direction {
    /// From a packet to the packets that it depends on.
    Depends,
    /// From a packet to the packets that depend on it.
    UsedBy,
}

/// Dependency `d` of packet `j` names packet `i`.
pub open spec fn via(ps: Seq<Packet>, j: int, d: int, i: int) -> bool {
    0 <= j < ps.len() && 0 <= i < ps.len() && 0 <= d < ps[j].depends@.len()
        && ps[j].depends@[d].packet@ == ps[i].id@
}

/// Packet `j` depends directly on packet `i`.
pub open spec fn edge(ps: Seq<Packet>, j: int, i: int) -> bool {
    exists|d: int| via(ps, j, d, i)
}

/// One hop in direction `dir` leads from `from` to `to`.
pub open spec fn link(ps: Seq<Packet>, dir: Direction, from: int, to: int) -> bool {
    match dir {
        Direction::Depends => edge(ps, from, to),
        Direction::UsedBy => edge(ps, to, from),
    }
}

/// The marked packets and those one hop from a marked packet.
pub open spec fn step(ps: Seq<Packet>, dir: Direction, s: Seq<bool>) -> Seq<bool> {
    Seq::new(
        ps.len(),
        |x: int| s[x] || exists|y: int| 0 <= y < ps.len() && s[y] && #[trigger] link(ps, dir, y, x),
    )
}

/// The packets within `k` hops of a marked packet.
pub open spec fn reach(ps: Seq<Packet>, dir: Direction, s: Seq<bool>, k: nat) -> Seq<bool>
    decreases k,
{
    if k == 0 {
        s
    } else {
        step(ps, dir, reach(ps, dir, s, (k - 1) as nat))
    }
}

/// The number of hops of a closure: the bound, or without one the number
/// of packets.
pub open spec fn hops(ps: Seq<Packet>, depth: Option<u64>) -> nat {
    match depth {
        Some(d) => d as nat,
        None => ps.len(),
    }
}

/// The packets within the hops of a marked packet that are not marked.
pub open spec fn closure(ps: Seq<Packet>, dir: Direction, s: Seq<bool>, depth: Option<u64>) -> Seq<
    bool,
> {
    Seq::new(ps.len(), |x: int| reach(ps, dir, s, hops(ps, depth))[x] && !s[x])
}

/// Once a step adds nothing, no number of further steps adds anything.
pub proof fn lemma_reach_fixed(ps: Seq<Packet>, dir: Direction, s: Seq<bool>, k: nat, m: nat)
    requires
        k <= m,
        reach(ps, dir, s, k + 1) == reach(ps, dir, s, k),
    ensures
        reach(ps, dir, s, m) == reach(ps, dir, s, k),
    decreases m,
{
    if m > k {
        lemma_reach_fixed(ps, dir, s, k, (m - 1) as nat);
    }
}

/// Pair `(j, d)` comes before `(j0, d0)` in the walk over all dependencies.
pub open spec fn walked(j: int, d: int, j0: int, d0: int) -> bool {
    j < j0 || (j == j0 && d < d0)
}

/// Dependency `d` of packet `j`, naming packet `i`, carries a mark of `s` to `x`.
pub open spec fn carries(
    ps: Seq<Packet>,
    dir: Direction,
    s: Seq<bool>,
    j: int,
    d: int,
    i: int,
    x: int,
) -> bool {
    via(ps, j, d, i) && match dir {
        Direction::Depends => s[j] && x == i,
        Direction::UsedBy => s[i] && x == j,
    }
}

/// One step from the marks `s`.
pub fn step_marks(ps: &Vec<Packet>, dir: Direction, s: &Vec<bool>) -> (r: Vec<bool>)
    requires
        distinct_ids(ps@),
        s@.len() == ps@.len(),
    ensures
        r@ == step(ps@, dir, s@),
{
    let n: usize = ps.len();
    let mut out: Vec<bool> = Vec::new();
    let mut c: usize = 0;
    while c < n
        invariant
            c <= n,
            n == s@.len(),
            out@ == s@.take(c as int),
        decreases n - c,
    {
        out.push(s[c]);
        assert(out@ =~= s@.take(c + 1));
        c += 1;
    }
    assert(out@ =~= s@);
    let mut j: usize = 0;
    while j < n
        invariant
            j <= n,
            n == ps@.len(),
            n == s@.len(),
            out@.len() == n,
            distinct_ids(ps@),
            forall|x: int|
                0 <= x < n ==> (#[trigger] out@[x] <==> (s@[x] || exists|jj: int, dd: int, ii: int|
                    walked(jj, dd, j as int, 0) && #[trigger] carries(ps@, dir, s@, jj, dd, ii, x))),
        decreases n - j,
    {
        let mut d: usize = 0;
        while d < ps[j].depends.len()
            invariant
                j < n,
                n == ps@.len(),
                n == s@.len(),
                out@.len() == n,
                distinct_ids(ps@),
                d <= ps@[j as int].depends@.len(),
                forall|x: int|
                    0 <= x < n ==> (#[trigger] out@[x] <==> (s@[x] || exists|
                        jj: int,
                        dd: int,
                        ii: int,
                    |
                        walked(jj, dd, j as int, d as int) && #[trigger] carries(
                            ps@,
                            dir,
                            s@,
                            jj,
                            dd,
                            ii,
                            x,
                        ))),
            decreases ps@[j as int].depends@.len() - d,
        {
            let ghost before = out@;
            let found = position_of(ps, ps[j].depends[d].packet.as_slice());
            let mut target: Option<usize> = None;
            match found {
                Some(i) => {
                    match dir {
                        Direction::Depends => {
                            if s[j] {
                                target = Some(i);
                            }
                        },
                        Direction::UsedBy => {
                            if s[i] {
                                target = Some(j);
                            }
                        },
                    }
                },
                None => {},
            }
            match target {
                Some(t) => {
                    out.set(t, true);
                },
                None => {},
            }
            proof {
                let jn = j as int;
                let dn = d as int;
                assert forall|x: int| 0 <= x < n implies (#[trigger] out@[x] <==> (s@[x] || exists|
                    jj: int,
                    dd: int,
                    ii: int,
                |
                    walked(jj, dd, jn, dn + 1) && #[trigger] carries(ps@, dir, s@, jj, dd, ii, x))) by {
                    let old_side = s@[x] || exists|jj: int, dd: int, ii: int|
                        walked(jj, dd, jn, dn) && #[trigger] carries(ps@, dir, s@, jj, dd, ii, x);
                    assert(before[x] <==> old_side);
                    if out@[x] {
                        if before[x] {
                            if !s@[x] {
                                let (jj, dd, ii) = choose|jj: int, dd: int, ii: int|
                                    walked(jj, dd, jn, dn) && #[trigger] carries(
                                        ps@,
                                        dir,
                                        s@,
                                        jj,
                                        dd,
                                        ii,
                                        x,
                                    );
                                assert(walked(jj, dd, jn, dn + 1) && carries(
                                    ps@,
                                    dir,
                                    s@,
                                    jj,
                                    dd,
                                    ii,
                                    x,
                                ));
                            }
                        } else {
                            let i = found.unwrap() as int;
                            assert(walked(jn, dn, jn, dn + 1) && carries(ps@, dir, s@, jn, dn, i, x));
                        }
                    }
                    if !s@[x] && exists|jj: int, dd: int, ii: int|
                        walked(jj, dd, jn, dn + 1) && #[trigger] carries(ps@, dir, s@, jj, dd, ii, x) {
                        let (jj, dd, ii) = choose|jj: int, dd: int, ii: int|
                            walked(jj, dd, jn, dn + 1) && #[trigger] carries(
                                ps@,
                                dir,
                                s@,
                                jj,
                                dd,
                                ii,
                                x,
                            );
                        if walked(jj, dd, jn, dn) {
                            assert(before[x]);
                        } else {
                            assert(jj == jn && dd == dn);
                            assert(ps@[ii].id@ == ps@[jn].depends@[dn].packet@);
                            assert(found.is_some());
                            assert(found.unwrap() as int == ii);
                            assert(target == Some(x as usize));
                        }
                    }
                }
            }
            d += 1;
        }
        proof {
            assert forall|x: int| 0 <= x < n implies (#[trigger] out@[x] <==> (s@[x] || exists|
                jj: int,
                dd: int,
                ii: int,
            |
                walked(jj, dd, j + 1, 0) && #[trigger] carries(ps@, dir, s@, jj, dd, ii, x))) by {
                let jn = j as int;
                let dn = ps@[jn].depends@.len() as int;
                if out@[x] && !s@[x] {
                    let (jj, dd, ii) = choose|jj: int, dd: int, ii: int|
                        walked(jj, dd, jn, dn) && #[trigger] carries(ps@, dir, s@, jj, dd, ii, x);
                    assert(walked(jj, dd, jn + 1, 0) && carries(ps@, dir, s@, jj, dd, ii, x));
                }
                if exists|jj: int, dd: int, ii: int|
                    walked(jj, dd, jn + 1, 0) && #[trigger] carries(ps@, dir, s@, jj, dd, ii, x) {
                    let (jj, dd, ii) = choose|jj: int, dd: int, ii: int|
                        walked(jj, dd, jn + 1, 0) && #[trigger] carries(ps@, dir, s@, jj, dd, ii, x);
                    assert(walked(jj, dd, jn, dn) && carries(ps@, dir, s@, jj, dd, ii, x));
                }
            }
        }
        j += 1;
    }
    proof {
        let want = step(ps@, dir, s@);
        assert forall|x: int| 0 <= x < n implies out@[x] == want[x] by {
            if out@[x] && !s@[x] {
                let (jj, dd, ii) = choose|jj: int, dd: int, ii: int|
                    walked(jj, dd, n as int, 0) && #[trigger] carries(ps@, dir, s@, jj, dd, ii, x);
                assert(via(ps@, jj, dd, ii));
                match dir {
                    Direction::Depends => {
                        assert(edge(ps@, jj, x));
                        assert(s@[jj] && link(ps@, dir, jj, x));
                    },
                    Direction::UsedBy => {
                        assert(edge(ps@, x, ii));
                        assert(s@[ii] && link(ps@, dir, ii, x));
                    },
                }
            }
            if want[x] && !s@[x] {
                let y = choose|y: int| 0 <= y < ps@.len() && s@[y] && #[trigger] link(ps@, dir, y, x);
                match dir {
                    Direction::Depends => {
                        let dd = choose|dd: int| via(ps@, y, dd, x);
                        assert(walked(y, dd, n as int, 0) && carries(ps@, dir, s@, y, dd, x, x));
                    },
                    Direction::UsedBy => {
                        let dd = choose|dd: int| via(ps@, x, dd, y);
                        assert(walked(x, dd, n as int, 0) && carries(ps@, dir, s@, x, dd, y, x));
                    },
                }
            }
        }
        assert(out@ =~= want);
    }
    out
}

fn same_marks(a: &Vec<bool>, b: &Vec<bool>) -> (r: bool)
    requires
        a@.len() == b@.len(),
    ensures
        r == (a@ == b@),
{
    let mut i: usize = 0;
    while i < a.len()
        invariant
            i <= a.len(),
            a@.len() == b@.len(),
            forall|k: int| 0 <= k < i ==> a@[k] == b@[k],
        decreases a.len() - i,
    {
        if a[i] != b[i] {
            return false;
        }
        i += 1;
    }
    assert(a@ =~= b@);
    true
}

/// The packets within the hops of a marked packet, the marked ones among
/// them. Without a bound, as many hops as there are packets.
pub fn reach_marks(ps: &Vec<Packet>, dir: Direction, s: &Vec<bool>, depth: Option<u64>) -> (r: Vec<
    bool,
>)
    requires
        distinct_ids(ps@),
        s@.len() == ps@.len(),
    ensures
        r@ == reach(ps@, dir, s@, hops(ps@, depth)),
        r@.len() == ps@.len(),
{
    let n: usize = ps.len();
    let limit: u64 = match depth {
        Some(d) => d,
        None => n as u64,
    };
    // `cur` runs one step ahead of `prev`, so that a step that adds nothing is seen.
    let mut cur: Vec<bool> = step_marks(ps, dir, s);
    let mut k: u64 = 0;
    let mut fixed: bool = limit == 0;
    let mut prev: Vec<bool> = Vec::new();
    let mut c: usize = 0;
    while c < n
        invariant
            c <= n,
            n == s@.len(),
            prev@ == s@.take(c as int),
        decreases n - c,
    {
        prev.push(s[c]);
        assert(prev@ =~= s@.take(c + 1));
        c += 1;
    }
    assert(prev@ =~= s@);
    assert(reach(ps@, dir, s@, 0) == s@);
    assert(reach(ps@, dir, s@, 1) == step(ps@, dir, reach(ps@, dir, s@, 0)));
    while k < limit && !fixed
        invariant
            k <= limit,
            n == ps@.len(),
            n == s@.len(),
            n == prev@.len(),
            distinct_ids(ps@),
            limit == hops(ps@, depth),
            prev@ == reach(ps@, dir, s@, k as nat),
            cur@ == reach(ps@, dir, s@, (k + 1) as nat),
            fixed ==> prev@ == reach(ps@, dir, s@, limit as nat),
        decreases (limit - k) + (if fixed { 0int } else { 1int }),
    {
        if same_marks(&prev, &cur) {
            proof {
                lemma_reach_fixed(ps@, dir, s@, k as nat, limit as nat);
            }
            fixed = true;
        } else {
            let next = step_marks(ps, dir, &cur);
            prev = cur;
            cur = next;
            k += 1;
        }
    }
    prev
}

/// The packets within the hops of a marked packet that are not marked
/// themselves. Without a bound, as many hops as there are packets.
pub fn closure_marks(ps: &Vec<Packet>, dir: Direction, s: &Vec<bool>, depth: Option<u64>) -> (r: Vec<
    bool,
>)
    requires
        distinct_ids(ps@),
        s@.len() == ps@.len(),
    ensures
        r@ == closure(ps@, dir, s@, depth),
{
    let n: usize = ps.len();
    let reached = reach_marks(ps, dir, s, depth);
    let mut out: Vec<bool> = Vec::new();
    let mut x: usize = 0;
    while x < n
        invariant
            x <= n,
            n == s@.len(),
            n == reached@.len(),
            out@.len() == x,
            forall|y: int| 0 <= y < x ==> out@[y] == (reached@[y] && !s@[y]),
        decreases n - x,
    {
        out.push(reached[x] && !s[x]);
        x += 1;
    }
    assert(out@ =~= closure(ps@, dir, s@, depth));
    out
}

/// The packets that packet `a` depends on directly.
pub open spec fn direct(ps: Seq<Packet>, a: int) -> Seq<bool> {
    Seq::new(ps.len(), |x: int| edge(ps, a, x))
}

/// Packet `a` depends on itself, directly or through other packets, along
/// a path of no more hops than there are packets.
pub open spec fn on_cycle(ps: Seq<Packet>, a: int) -> bool {
    reach(ps, Direction::Depends, direct(ps, a), ps.len())[a]
}

/// The packets that packet `a` depends on directly, as marks.
pub fn direct_marks(ps: &Vec<Packet>, a: usize) -> (r: Vec<bool>)
    requires
        distinct_ids(ps@),
        a < ps@.len(),
    ensures
        r@ == direct(ps@, a as int),
{
    let n: usize = ps.len();
    let mut out: Vec<bool> = Vec::new();
    let mut c: usize = 0;
    while c < n
        invariant
            c <= n,
            out@.len() == c,
            forall|x: int| 0 <= x < c ==> !out@[x],
        decreases n - c,
    {
        out.push(false);
        c += 1;
    }
    let mut d: usize = 0;
    while d < ps[a].depends.len()
        invariant
            n == ps@.len(),
            a < n,
            out@.len() == n,
            distinct_ids(ps@),
            d <= ps@[a as int].depends@.len(),
            forall|x: int|
                0 <= x < n ==> (#[trigger] out@[x] <==> exists|dd: int|
                    dd < d && via(ps@, a as int, dd, x)),
        decreases ps@[a as int].depends@.len() - d,
    {
        let ghost before = out@;
        let found = position_of(ps, ps[a].depends[d].packet.as_slice());
        match found {
            Some(i) => {
                out.set(i, true);
            },
            None => {},
        }
        proof {
            assert forall|x: int| 0 <= x < n implies (#[trigger] out@[x] <==> exists|dd: int|
                dd < d + 1 && via(ps@, a as int, dd, x)) by {
                if out@[x] {
                    if before[x] {
                        let dd = choose|dd: int| dd < d && via(ps@, a as int, dd, x);
                        assert(dd < d + 1 && via(ps@, a as int, dd, x));
                    } else {
                        assert(via(ps@, a as int, d as int, x));
                    }
                }
                if exists|dd: int| dd < d + 1 && via(ps@, a as int, dd, x) {
                    let dd = choose|dd: int| dd < d + 1 && via(ps@, a as int, dd, x);
                    if dd < d {
                        assert(before[x]);
                    } else {
                        assert(found.is_some());
                        assert(found.unwrap() as int == x);
                    }
                }
            }
        }
        d += 1;
    }
    proof {
        assert forall|x: int| 0 <= x < n implies out@[x] == edge(ps@, a as int, x) by {
            if edge(ps@, a as int, x) {
                let dd = choose|dd: int| via(ps@, a as int, dd, x);
                assert(dd < d && via(ps@, a as int, dd, x));
            }
        }
        assert(out@ =~= direct(ps@, a as int));
    }
    out
}

/// For each packet, whether it depends on itself: such a repository is
/// corrupt, and the packets are reported rather than followed for ever.
pub fn cycle_marks(ps: &Vec<Packet>) -> (r: Vec<bool>)
    requires
        distinct_ids(ps@),
    ensures
        r@.len() == ps@.len(),
        forall|a: int| 0 <= a < ps@.len() ==> r@[a] == on_cycle(ps@, a),
{
    let n: usize = ps.len();
    let mut out: Vec<bool> = Vec::new();
    let mut a: usize = 0;
    while a < n
        invariant
            a <= n,
            n == ps@.len(),
            distinct_ids(ps@),
            out@.len() == a,
            forall|x: int| 0 <= x < a ==> out@[x] == on_cycle(ps@, x),
        decreases n - a,
    {
        let start = direct_marks(ps, a);
        let reached = reach_marks(ps, Direction::Depends, &start, None);
        out.push(reached[a]);
        a += 1;
    }
    out
}


/// The marks of packet `a` alone.
pub open spec fn only_at(n: nat, a: int) -> Seq<bool> {
    Seq::new(n, |x: int| x == a)
}

/// `b` is at most `k` hops from `a`, the path taken from its end.
pub open spec fn walk(ps: Seq<Packet>, dir: Direction, a: int, b: int, k: nat) -> bool
    decreases k,
{
    if k == 0 {
        a == b
    } else {
        walk(ps, dir, a, b, (k - 1) as nat) || exists|m: int|
            0 <= m < ps.len() && walk(ps, dir, a, m, (k - 1) as nat) && #[trigger] link(
                ps,
                dir,
                m,
                b,
            )
    }
}

/// `b` is at most `k` hops from `a`, the path taken from its start.
pub open spec fn walk_from(ps: Seq<Packet>, dir: Direction, a: int, b: int, k: nat) -> bool
    decreases k,
{
    if k == 0 {
        a == b
    } else {
        walk_from(ps, dir, a, b, (k - 1) as nat) || exists|m: int|
            0 <= m < ps.len() && #[trigger] link(ps, dir, a, m) && walk_from(
                ps,
                dir,
                m,
                b,
                (k - 1) as nat,
            )
    }
}

pub open spec fn opposite(dir: Direction) -> Direction {
    match dir {
        Direction::Depends => Direction::UsedBy,
        Direction::UsedBy => Direction::Depends,
    }
}

/// What is reached from one packet is what a path leads to.
pub proof fn lemma_reach_is_walk(ps: Seq<Packet>, dir: Direction, a: int, k: nat)
    requires
        0 <= a < ps.len(),
    ensures
        reach(ps, dir, only_at(ps.len(), a), k).len() == ps.len(),
        forall|b: int|
            0 <= b < ps.len() ==> #[trigger] reach(ps, dir, only_at(ps.len(), a), k)[b] == walk(
                ps,
                dir,
                a,
                b,
                k,
            ),
    decreases k,
{
    if k > 0 {
        let j = (k - 1) as nat;
        lemma_reach_is_walk(ps, dir, a, j);
        let r = reach(ps, dir, only_at(ps.len(), a), j);
        assert forall|b: int| 0 <= b < ps.len() implies #[trigger] reach(
            ps,
            dir,
            only_at(ps.len(), a),
            k,
        )[b] == walk(ps, dir, a, b, k) by {
            let now = step(ps, dir, r)[b];
            if now && !r[b] {
                let y = choose|y: int| 0 <= y < ps.len() && r[y] && #[trigger] link(ps, dir, y, b);
                assert(walk(ps, dir, a, y, j) && link(ps, dir, y, b));
            }
            if walk(ps, dir, a, b, k) && !walk(ps, dir, a, b, j) {
                let m = choose|m: int|
                    0 <= m < ps.len() && walk(ps, dir, a, m, j) && #[trigger] link(ps, dir, m, b);
                assert(r[m] && link(ps, dir, m, b));
            }
        }
    }
}

/// A path taken from its end in one direction is a path taken from its
/// start in the other.
pub proof fn lemma_walk_reversed(ps: Seq<Packet>, dir: Direction, a: int, b: int, k: nat)
    ensures
        walk(ps, dir, a, b, k) == walk_from(ps, opposite(dir), b, a, k),
    decreases k,
{
    if k > 0 {
        let j = (k - 1) as nat;
        let rev = opposite(dir);
        lemma_walk_reversed(ps, dir, a, b, j);
        if walk(ps, dir, a, b, k) && !walk(ps, dir, a, b, j) {
            let m = choose|m: int|
                0 <= m < ps.len() && walk(ps, dir, a, m, j) && #[trigger] link(ps, dir, m, b);
            lemma_walk_reversed(ps, dir, a, m, j);
            assert(link(ps, rev, b, m) && walk_from(ps, rev, m, a, j));
        }
        if walk_from(ps, rev, b, a, k) && !walk_from(ps, rev, b, a, j) {
            let m = choose|m: int|
                0 <= m < ps.len() && #[trigger] link(ps, rev, b, m) && walk_from(ps, rev, m, a, j);
            lemma_walk_reversed(ps, dir, a, m, j);
            assert(walk(ps, dir, a, m, j) && link(ps, dir, m, b));
        }
    }
}

/// A path taken from its start goes on by one hop at its end.
pub proof fn lemma_walk_from_extend(
    ps: Seq<Packet>,
    dir: Direction,
    a: int,
    m: int,
    b: int,
    k: nat,
)
    requires
        0 <= m < ps.len(),
        0 <= b < ps.len(),
        walk_from(ps, dir, a, m, k),
        link(ps, dir, m, b),
    ensures
        walk_from(ps, dir, a, b, k + 1),
    decreases k,
{
    if k == 0 {
        assert(link(ps, dir, a, b) && walk_from(ps, dir, b, b, 0));
    } else {
        let j = (k - 1) as nat;
        if walk_from(ps, dir, a, m, j) {
            lemma_walk_from_extend(ps, dir, a, m, b, j);
        } else {
            let x = choose|x: int|
                0 <= x < ps.len() && #[trigger] link(ps, dir, a, x) && walk_from(ps, dir, x, m, j);
            lemma_walk_from_extend(ps, dir, x, m, b, j);
            assert(link(ps, dir, a, x) && walk_from(ps, dir, x, b, k));
        }
    }
}

/// A path taken from its end goes on by one hop at its start.
pub proof fn lemma_walk_extend(ps: Seq<Packet>, dir: Direction, a: int, m: int, b: int, k: nat)
    requires
        0 <= a < ps.len(),
        0 <= m < ps.len(),
        link(ps, dir, a, m),
        walk(ps, dir, m, b, k),
    ensures
        walk(ps, dir, a, b, k + 1),
    decreases k,
{
    if k == 0 {
        assert(walk(ps, dir, a, a, 0) && link(ps, dir, a, b));
    } else {
        let j = (k - 1) as nat;
        if walk(ps, dir, m, b, j) {
            lemma_walk_extend(ps, dir, a, m, b, j);
        } else {
            let x = choose|x: int|
                0 <= x < ps.len() && walk(ps, dir, m, x, j) && #[trigger] link(ps, dir, x, b);
            lemma_walk_extend(ps, dir, a, m, x, j);
            assert(walk(ps, dir, a, x, k) && link(ps, dir, x, b));
        }
    }
}

/// Paths are the same whether they are taken from the start or the end.
pub proof fn lemma_walk_either_way(ps: Seq<Packet>, dir: Direction, a: int, b: int, k: nat)
    requires
        0 <= a < ps.len(),
        0 <= b < ps.len(),
    ensures
        walk(ps, dir, a, b, k) == walk_from(ps, dir, a, b, k),
    decreases k,
{
    if k > 0 {
        let j = (k - 1) as nat;
        lemma_walk_either_way(ps, dir, a, b, j);
        if walk(ps, dir, a, b, k) && !walk(ps, dir, a, b, j) {
            let m = choose|m: int|
                0 <= m < ps.len() && walk(ps, dir, a, m, j) && #[trigger] link(ps, dir, m, b);
            lemma_walk_either_way(ps, dir, a, m, j);
            lemma_walk_from_extend(ps, dir, a, m, b, j);
        }
        if walk_from(ps, dir, a, b, k) && !walk_from(ps, dir, a, b, j) {
            let m = choose|m: int|
                0 <= m < ps.len() && #[trigger] link(ps, dir, a, m) && walk_from(ps, dir, m, b, j);
            lemma_walk_either_way(ps, dir, m, b, j);
            lemma_walk_extend(ps, dir, a, m, b, j);
        }
    }
}

/// The two closures are inverse to each other: packet `b` is among what
/// packet `a` depends on within some hops exactly when `a` is among what
/// uses `b` within as many hops.
pub proof fn lemma_closures_inverse(ps: Seq<Packet>, a: int, b: int, depth: Option<u64>)
    requires
        0 <= a < ps.len(),
        0 <= b < ps.len(),
        a != b,
    ensures
        closure(ps, Direction::Depends, only_at(ps.len(), a), depth)[b] == closure(
            ps,
            Direction::UsedBy,
            only_at(ps.len(), b),
            depth,
        )[a],
{
    let k = hops(ps, depth);
    lemma_reach_is_walk(ps, Direction::Depends, a, k);
    lemma_reach_is_walk(ps, Direction::UsedBy, b, k);
    lemma_walk_reversed(ps, Direction::Depends, a, b, k);
    lemma_walk_either_way(ps, Direction::UsedBy, b, a, k);
}

} // verus!
