//! Packet records and the index built from them: packets in the order of
//! their time (ties by id), found by id, with their dependency edges.

use crate::bytes::{bytes_eq, bytes_lt, lemma_seq_lt_order, seq_lt};
use vstd::prelude::*;

verus! {

/// A parameter's value. Numbers are held as integers.
#[derive(Debug)]
pub enum Scalar {
    Str(Vec<u8>),
    Num(i64),
    Bool(bool),
}

#[derive(Debug)]
pub struct Parameter {
    pub key: Vec<u8>,
    pub value: Scalar,
}

#[derive(Debug)]
pub struct FileEntry {
    pub path: Vec<u8>,
    pub hash: Vec<u8>,
    pub size: u64,
}

/// A dependency: the packet depended on and the hashes of the files used.
#[derive(Debug)]
pub struct Dependency {
    pub packet: Vec<u8>,
    pub files: Vec<Vec<u8>>,
}

/// An immutable packet record. `time` counts whole ticks since the epoch and
/// is the key that packets are ordered by; `custom` is carried through unread.
#[derive(Debug)]
pub struct Packet {
    pub id: Vec<u8>,
    pub name: Vec<u8>,
    pub time: u64,
    pub parameters: Vec<Parameter>,
    pub files: Vec<FileEntry>,
    pub depends: Vec<Dependency>,
    pub custom: Vec<u8>,
}

/// A dependency that names no packet of the index, by the position of the
/// packet in the index and of the dependency in the packet.
#[derive(Clone, Copy, Debug, PartialEq, Eq, Structural)]
pub struct DanglingDependency {
    pub packet: usize,
    pub dependency: usize,
}

/// The order of packets: by time, ties by the lexical order of the ids.
pub open spec fn key_lt(t1: u64, id1: Seq<u8>, t2: u64, id2: Seq<u8>) -> bool {
    t1 < t2 || (t1 == t2 && seq_lt(id1, id2))
}

pub open spec fn packet_lt(a: Packet, b: Packet) -> bool {
    key_lt(a.time, a.id@, b.time, b.id@)
}

pub open spec fn sorted(ps: Seq<Packet>) -> bool {
    forall|i: int, j: int| 0 <= i < j < ps.len() ==> packet_lt(#[trigger] ps[i], #[trigger] ps[j])
}

pub open spec fn distinct_ids(ps: Seq<Packet>) -> bool {
    forall|i: int, j: int|
        0 <= i < ps.len() && 0 <= j < ps.len() && i != j ==> (#[trigger] ps[i]).id@ != (
        #[trigger] ps[j]).id@
}

/// Some packet among the first `n` of `ps` has the id `id`.
pub open spec fn has_id_before(ps: Seq<Packet>, n: int, id: Seq<u8>) -> bool {
    exists|i: int| 0 <= i < n && i < ps.len() && (#[trigger] ps[i]).id@ == id
}

pub open spec fn has_id(ps: Seq<Packet>, id: Seq<u8>) -> bool {
    has_id_before(ps, ps.len() as int, id)
}

/// Record `j` is the first of `records` with its id.
pub open spec fn is_first(records: Seq<Packet>, j: int) -> bool {
    0 <= j < records.len() && !has_id_before(records, j, records[j].id@)
}

/// The ids of the records among the first `n` that are not the first with
/// their id, in the order of the records.
pub open spec fn repeated_ids(records: Seq<Packet>, n: int) -> Seq<Seq<u8>>
    decreases n,
{
    if n <= 0 {
        Seq::<Seq<u8>>::empty()
    } else {
        let rest = repeated_ids(records, n - 1);
        if is_first(records, n - 1) {
            rest
        } else {
            rest.push(records[n - 1].id@)
        }
    }
}

/// The dangling ones among the first `n` dependencies of packet `j`.
pub open spec fn dangling_of(ps: Seq<Packet>, j: int, n: int) -> Seq<DanglingDependency>
    decreases n,
{
    if n <= 0 {
        Seq::<DanglingDependency>::empty()
    } else {
        let rest = dangling_of(ps, j, n - 1);
        if has_id(ps, ps[j].depends@[n - 1].packet@) {
            rest
        } else {
            rest.push(DanglingDependency { packet: j as usize, dependency: (n - 1) as usize })
        }
    }
}

/// The dangling dependencies of the first `m` packets, packet by packet.
pub open spec fn dangling_upto(ps: Seq<Packet>, m: int) -> Seq<DanglingDependency>
    decreases m,
{
    if m <= 0 {
        Seq::<DanglingDependency>::empty()
    } else {
        dangling_upto(ps, m - 1) + dangling_of(ps, m - 1, ps[m - 1].depends@.len() as int)
    }
}

/// The packet order is a strict total order on keys.
pub proof fn lemma_packet_order(a: Packet, b: Packet, c: Packet)
    ensures
        packet_lt(a, b) || packet_lt(b, a) || (a.time == b.time && a.id@ == b.id@),
        !(packet_lt(a, b) && packet_lt(b, a)),
        !packet_lt(a, a),
        packet_lt(a, b) && packet_lt(b, c) ==> packet_lt(a, c),
{
    lemma_seq_lt_order(a.id@, b.id@, c.id@);
    lemma_seq_lt_order(a.id@, a.id@, a.id@);
}

pub fn packet_before(a: &Packet, b: &Packet) -> (r: bool)
    ensures
        r == packet_lt(*a, *b),
{
    a.time < b.time || (a.time == b.time && bytes_lt(a.id.as_slice(), b.id.as_slice()))
}

/// The position of the first packet with the id `id` among `ps`.
pub fn position_of(ps: &Vec<Packet>, id: &[u8]) -> (r: Option<usize>)
    ensures
        match r {
            Some(i) => i < ps@.len() && ps@[i as int].id@ == id@ && forall|j: int|
                0 <= j < i ==> (#[trigger] ps@[j]).id@ != id@,
            None => !has_id(ps@, id@),
        },
{
    let mut i: usize = 0;
    while i < ps.len()
        invariant
            i <= ps.len(),
            forall|j: int| 0 <= j < i ==> (#[trigger] ps@[j]).id@ != id@,
        decreases ps.len() - i,
    {
        if bytes_eq(ps[i].id.as_slice(), id) {
            return Some(i);
        }
        i += 1;
    }
    None
}

/// The packets of a repository at one point in time.
pub struct Index {
    packets: Vec<Packet>,
}

/// What building an index gives: the index, and the ids of the records that
/// were left out because an earlier record had the same id.
pub struct Built {
    pub index: Index,
    pub repeated: Vec<Vec<u8>>,
}

impl Index {
    /// The packets, in the order of the index.
    pub closed spec fn entries(&self) -> Seq<Packet> {
        self.packets@
    }

    /// The packets are in the order of their keys and no id occurs twice.
    pub open spec fn wf(&self) -> bool {
        sorted(self.entries()) && distinct_ids(self.entries())
    }

    /// The ids of the packets.
    pub open spec fn ids(&self) -> Set<Seq<u8>> {
        Set::new(|id: Seq<u8>| has_id(self.entries(), id))
    }

    /// Builds the index of `records`. Of records that share an id the first
    /// is kept; the packets stand in the order of time, ties by id.
    pub fn build(records: Vec<Packet>) -> (r: Built)
        ensures
            r.index.wf(),
            forall|p: Packet|
                r.index.entries().contains(p) <==> exists|j: int|
                    is_first(records@, j) && #[trigger] records@[j] == p,
            forall|id: Seq<u8>| has_id(r.index.entries(), id) <==> has_id(records@, id),
            crate::bytes::views(r.repeated@) == repeated_ids(records@, records@.len() as int),
    {
        let ghost all = records@;
        let mut rest = records;
        let mut packets: Vec<Packet> = Vec::new();
        let mut repeated: Vec<Vec<u8>> = Vec::new();
        let ghost mut done: int = 0;
        assert(crate::bytes::views(repeated@) =~= repeated_ids(all, 0));
        while rest.len() > 0
            invariant
                0 <= done <= all.len(),
                rest@ == all.skip(done),
                sorted(packets@),
                distinct_ids(packets@),
                forall|p: Packet|
                    packets@.contains(p) <==> exists|j: int|
                        j < done && is_first(all, j) && #[trigger] all[j] == p,
                forall|id: Seq<u8>| has_id(packets@, id) <==> has_id_before(all, done, id),
                crate::bytes::views(repeated@) == repeated_ids(all, done),
            decreases rest.len(),
        {
            let p = rest.remove(0);
            assert(p == all[done]);
            assert(rest@ =~= all.skip(done + 1));
            let ghost before = packets@;
            let ghost reps = crate::bytes::views(repeated@);
            match position_of(&packets, p.id.as_slice()) {
                Some(_) => {
                    repeated.push(crate::bytes::copy_bytes(p.id.as_slice()));
                    proof {
                        assert(!is_first(all, done));
                        assert(crate::bytes::views(repeated@) =~= reps.push(p.id@));
                        assert forall|q: Packet| packets@.contains(q) implies exists|j: int|
                            j < done + 1 && is_first(all, j) && #[trigger] all[j] == q by {
                            let j = choose|j: int|
                                j < done && is_first(all, j) && #[trigger] all[j] == q;
                            assert(j < done + 1 && is_first(all, j) && all[j] == q);
                        }
                        assert forall|id: Seq<u8>| has_id_before(all, done + 1, id) implies has_id(
                            packets@,
                            id,
                        ) by {
                            let i = choose|i: int|
                                0 <= i < done + 1 && i < all.len() && (#[trigger] all[i]).id@ == id;
                            if i < done {
                                assert(has_id_before(all, done, id));
                            }
                        }
                        assert forall|id: Seq<u8>| has_id(packets@, id) implies has_id_before(
                            all,
                            done + 1,
                            id,
                        ) by {
                            assert(has_id_before(all, done, id));
                            let i = choose|i: int|
                                0 <= i < done && i < all.len() && (#[trigger] all[i]).id@ == id;
                            assert(0 <= i < done + 1 && all[i].id@ == id);
                        }
                    }
                },
                None => {
                    let mut pos: usize = 0;
                    while pos < packets.len() && !packet_before(&p, &packets[pos])
                        invariant
                            pos <= packets.len(),
                            forall|k: int| 0 <= k < pos ==> !packet_lt(p, #[trigger] packets@[k]),
                        decreases packets.len() - pos,
                    {
                        pos += 1;
                    }
                    proof {
                        assert(is_first(all, done));
                        assert forall|k: int| 0 <= k < before.len() implies (if k < pos {
                            packet_lt(#[trigger] before[k], p)
                        } else {
                            packet_lt(p, before[k])
                        }) by {
                            lemma_packet_order(before[k], p, p);
                            if k >= pos {
                                lemma_packet_order(p, before[pos as int], before[k]);
                            }
                        }
                    }
                    packets.insert(pos, p);
                    proof {
                        let after = packets@;
                        assert(after.len() == before.len() + 1);
                        assert(after[pos as int] == p);
                        assert(forall|k: int| 0 <= k < pos ==> after[k] == before[k]);
                        assert(forall|k: int| pos < k < after.len() ==> after[k] == before[k - 1]);
                        assert(forall|k: int|
                            0 <= k < before.len() ==> #[trigger] before[k] == after[if k < pos {
                                k
                            } else {
                                k + 1
                            }]);
                        assert(sorted(after)) by {
                            assert forall|i: int, j: int| 0 <= i < j < after.len() implies packet_lt(
                                #[trigger] after[i],
                                #[trigger] after[j],
                            ) by {
                                let bi = if i < pos { i } else { i - 1 };
                                let bj = if j < pos { j } else { j - 1 };
                                if i != pos && j != pos {
                                    assert(packet_lt(before[bi], before[bj]));
                                } else if i == pos {
                                    assert(packet_lt(p, before[bj]));
                                } else {
                                    assert(packet_lt(before[bi], p));
                                }
                            }
                        }
                        assert(distinct_ids(after)) by {
                            assert forall|i: int, j: int|
                                0 <= i < after.len() && 0 <= j < after.len() && i != j implies (
                            #[trigger] after[i]).id@ != (#[trigger] after[j]).id@ by {
                                let bi = if i < pos { i } else { i - 1 };
                                let bj = if j < pos { j } else { j - 1 };
                                if i != pos && j != pos {
                                    assert(before[bi].id@ != before[bj].id@);
                                } else if i == pos {
                                    assert(before[bj].id@ != p.id@);
                                } else {
                                    assert(before[bi].id@ != p.id@);
                                }
                            }
                        }
                        assert forall|q: Packet| after.contains(q) implies exists|j: int|
                            j < done + 1 && is_first(all, j) && #[trigger] all[j] == q by {
                            let k = choose|k: int| 0 <= k < after.len() && after[k] == q;
                            if k == pos {
                                assert(is_first(all, done) && all[done] == q);
                            } else {
                                let bk = if k < pos { k } else { k - 1 };
                                assert(before[bk] == q);
                                assert(before.contains(q));
                                let j = choose|j: int|
                                    j < done && is_first(all, j) && #[trigger] all[j] == q;
                                assert(j < done + 1 && is_first(all, j) && all[j] == q);
                            }
                        }
                        assert forall|q: Packet|
                            (exists|j: int|
                                j < done + 1 && is_first(all, j) && #[trigger] all[j]
                                    == q) implies after.contains(q) by {
                            let j = choose|j: int|
                                j < done + 1 && is_first(all, j) && #[trigger] all[j] == q;
                            if j == done {
                                assert(after[pos as int] == q);
                            } else {
                                assert(before.contains(q));
                                let k = choose|k: int| 0 <= k < before.len() && before[k] == q;
                                assert(after[if k < pos { k } else { k + 1 }] == q);
                            }
                        }
                        assert forall|id: Seq<u8>| has_id_before(all, done + 1, id) implies has_id(
                            after,
                            id,
                        ) by {
                            let i = choose|i: int|
                                0 <= i < done + 1 && i < all.len() && (#[trigger] all[i]).id@ == id;
                            if i < done {
                                assert(has_id_before(all, done, id));
                                assert(has_id(before, id));
                                let k = choose|k: int|
                                    0 <= k < before.len() && (#[trigger] before[k]).id@ == id;
                                assert(after[if k < pos { k } else { k + 1 }].id@ == id);
                            } else {
                                assert(after[pos as int].id@ == id);
                            }
                        }
                        assert forall|id: Seq<u8>| has_id(after, id) implies has_id_before(
                            all,
                            done + 1,
                            id,
                        ) by {
                            let k = choose|k: int|
                                0 <= k < after.len() && (#[trigger] after[k]).id@ == id;
                            if k == pos {
                                assert(all[done].id@ == id);
                            } else {
                                let bk = if k < pos { k } else { k - 1 };
                                assert(before[bk].id@ == id);
                                assert(has_id(before, id));
                                assert(has_id_before(all, done, id));
                                let i = choose|i: int|
                                    0 <= i < done && i < all.len() && (#[trigger] all[i]).id@ == id;
                                assert(0 <= i < done + 1 && all[i].id@ == id);
                            }
                        }
                    }
                },
            }
            proof {
                done = done + 1;
            }
        }
        Built { index: Index { packets }, repeated }
    }

    /// The packets, in the order of the index.
    pub fn packets(&self) -> (r: &Vec<Packet>)
        ensures
            r@ == self.entries(),
    {
        &self.packets
    }

    pub fn len(&self) -> (r: usize)
        ensures
            r == self.entries().len(),
    {
        self.packets.len()
    }

    /// The packet with the id `id`, if the index holds one.
    pub fn get_by_id(&self, id: &[u8]) -> (r: Option<&Packet>)
        ensures
            match r {
                Some(p) => self.entries().contains(*p) && p.id@ == id@ && self.ids().contains(id@),
                None => !self.ids().contains(id@),
            },
    {
        match position_of(&self.packets, id) {
            Some(i) => Some(&self.packets[i]),
            None => None,
        }
    }

    /// The number of leading packets whose time is not after `time`: the
    /// packets from that position on are those with a later time.
    pub fn first_after(&self, time: u64) -> (r: usize)
        requires
            self.wf(),
        ensures
            r <= self.entries().len(),
            forall|i: int| 0 <= i < r ==> (#[trigger] self.entries()[i]).time <= time,
            forall|i: int| r <= i < self.entries().len() ==> (#[trigger] self.entries()[i]).time > time,
    {
        let mut i: usize = 0;
        while i < self.packets.len() && self.packets[i].time <= time
            invariant
                i <= self.packets.len(),
                forall|k: int| 0 <= k < i ==> (#[trigger] self.packets@[k]).time <= time,
            decreases self.packets.len() - i,
        {
            i += 1;
        }
        proof {
            assert forall|k: int| i <= k < self.entries().len() implies (
            #[trigger] self.entries()[k]).time > time by {
                if k > i {
                    assert(packet_lt(self.entries()[i as int], self.entries()[k]));
                }
            }
        }
        i
    }

    /// The packets with a time after `time`, or all of them where none is
    /// given, in the order of the index.
    pub fn get_since(&self, time: Option<u64>) -> (r: Vec<&Packet>)
        requires
            self.wf(),
        ensures
            r@.len() <= self.entries().len(),
            forall|i: int|
                0 <= i < r@.len() ==> *(#[trigger] r@[i]) == self.entries()[self.entries().len()
                    - r@.len() + i],
            forall|i: int|
                0 <= i < self.entries().len() ==> ((i >= self.entries().len() - r@.len()) <==> (
                time.is_none() || (#[trigger] self.entries()[i]).time > time.unwrap())),
    {
        let start: usize = match time {
            Some(t) => self.first_after(t),
            None => 0,
        };
        let mut out: Vec<&Packet> = Vec::new();
        let mut i: usize = start;
        while i < self.packets.len()
            invariant
                start <= i <= self.packets.len(),
                out@.len() == i - start,
                forall|k: int| 0 <= k < out@.len() ==> *(#[trigger] out@[k]) == self.packets@[start + k],
            decreases self.packets.len() - i,
        {
            out.push(&self.packets[i]);
            i += 1;
        }
        out
    }

    /// The dependencies that name no packet of the index, packet by packet.
    pub fn dangling_dependencies(&self) -> (r: Vec<DanglingDependency>)
        ensures
            r@ == dangling_upto(self.entries(), self.entries().len() as int),
    {
        let mut out: Vec<DanglingDependency> = Vec::new();
        let mut j: usize = 0;
        while j < self.packets.len()
            invariant
                j <= self.packets.len(),
                out@ == dangling_upto(self.packets@, j as int),
            decreases self.packets.len() - j,
        {
            let ghost base = out@;
            let mut d: usize = 0;
            while d < self.packets[j].depends.len()
                invariant
                    j < self.packets.len(),
                    d <= self.packets@[j as int].depends@.len(),
                    out@ == base + dangling_of(self.packets@, j as int, d as int),
                decreases self.packets@[j as int].depends@.len() - d,
            {
                let ghost cur = out@;
                if position_of(&self.packets, self.packets[j].depends[d].packet.as_slice()).is_none() {
                    out.push(DanglingDependency { packet: j, dependency: d });
                    assert(out@ =~= base + dangling_of(self.packets@, j as int, d + 1));
                }
                d += 1;
            }
            j += 1;
        }
        out
    }
}


/// The ids of the packets, in the order of the packets.
pub open spec fn ids_of(ps: Seq<Packet>) -> Seq<Seq<u8>> {
    Seq::new(ps.len(), |i: int| ps[i].id@)
}

/// The number of leading items from `i` on that come before `x`.
pub open spec fn rank_from(s: Seq<Seq<u8>>, x: Seq<u8>, i: int) -> int
    decreases s.len() - i,
{
    if 0 <= i < s.len() && seq_lt(s[i], x) {
        rank_from(s, x, i + 1)
    } else {
        i
    }
}

/// The first `n` of `ids` in lexical order: each is put before the first
/// item that does not come before it.
pub open spec fn sort_ids(ids: Seq<Seq<u8>>, n: int) -> Seq<Seq<u8>>
    decreases n,
{
    if n <= 0 {
        Seq::<Seq<u8>>::empty()
    } else {
        let rest = sort_ids(ids, n - 1);
        rest.insert(rank_from(rest, ids[n - 1], 0), ids[n - 1])
    }
}

/// The byte strings of a list, one after the other.
pub open spec fn concat(parts: Seq<Seq<u8>>) -> Seq<u8>
    decreases parts.len(),
{
    if parts.len() == 0 {
        Seq::<u8>::empty()
    } else {
        concat(parts.drop_last()) + parts.last()
    }
}

/// What is digested for an index: its ids in lexical order, joined.
pub open spec fn ids_text(ps: Seq<Packet>) -> Seq<u8> {
    concat(sort_ids(ids_of(ps), ps.len() as int))
}

fn rank_of(s: &Vec<Vec<u8>>, x: &[u8]) -> (r: usize)
    ensures
        r == rank_from(crate::bytes::views(s@), x@, 0),
        r <= s@.len(),
{
    let mut i: usize = 0;
    while i < s.len() && bytes_lt(s[i].as_slice(), x)
        invariant
            i <= s.len(),
            rank_from(crate::bytes::views(s@), x@, 0) == rank_from(
                crate::bytes::views(s@),
                x@,
                i as int,
            ),
        decreases s.len() - i,
    {
        i += 1;
    }
    i
}

impl Index {
    /// The ids of the packets in lexical order.
    pub fn sorted_ids(&self) -> (r: Vec<Vec<u8>>)
        ensures
            crate::bytes::views(r@) == sort_ids(ids_of(self.entries()), self.entries().len() as int),
    {
        let mut out: Vec<Vec<u8>> = Vec::new();
        let mut i: usize = 0;
        assert(crate::bytes::views(out@) =~= sort_ids(ids_of(self.packets@), 0));
        while i < self.packets.len()
            invariant
                i <= self.packets.len(),
                crate::bytes::views(out@) == sort_ids(ids_of(self.packets@), i as int),
            decreases self.packets.len() - i,
        {
            let ghost before = out@;
            let k = rank_of(&out, self.packets[i].id.as_slice());
            out.insert(k, crate::bytes::copy_bytes(self.packets[i].id.as_slice()));
            assert(crate::bytes::views(out@) =~= crate::bytes::views(before).insert(
                k as int,
                self.packets@[i as int].id@,
            ));
            i += 1;
        }
        out
    }

    /// The digest of the ids of the packets, taken in lexical order and
    /// joined: one hash string that stands for the set of ids.
    pub fn get_ids_digest(&self, alg: crate::hash::HashAlgorithm) -> (r: Vec<u8>)
        ensures
            r@ == crate::hash::digest_spec(alg, ids_text(self.entries())),
    {
        let ids = self.sorted_ids();
        let mut text: Vec<u8> = Vec::new();
        let mut i: usize = 0;
        assert(crate::bytes::views(ids@).take(0) =~= Seq::<Seq<u8>>::empty());
        while i < ids.len()
            invariant
                i <= ids.len(),
                text@ == concat(crate::bytes::views(ids@).take(i as int)),
            decreases ids.len() - i,
        {
            assert(crate::bytes::views(ids@).take(i + 1).drop_last() =~= crate::bytes::views(
                ids@,
            ).take(i as int));
            crate::bytes::append_bytes(&mut text, ids[i].as_slice());
            i += 1;
        }
        assert(crate::bytes::views(ids@).take(ids.len() as int) =~= crate::bytes::views(ids@));
        crate::hash::hash_data(text.as_slice(), alg)
    }
}


/// Each item comes before the next in the lexical order.
pub open spec fn ascending(s: Seq<Seq<u8>>) -> bool {
    forall|i: int, j: int| 0 <= i < j < s.len() ==> seq_lt(#[trigger] s[i], #[trigger] s[j])
}

/// In an ascending list, the items before the rank of `x` come before `x`
/// and the item at the rank does not.
pub proof fn lemma_rank(s: Seq<Seq<u8>>, x: Seq<u8>, i: int)
    requires
        0 <= i <= s.len(),
        forall|j: int| 0 <= j < i ==> seq_lt(#[trigger] s[j], x),
    ensures
        i <= rank_from(s, x, i) <= s.len(),
        forall|j: int| 0 <= j < rank_from(s, x, i) ==> seq_lt(#[trigger] s[j], x),
        rank_from(s, x, i) < s.len() ==> !seq_lt(s[rank_from(s, x, i)], x),
    decreases s.len() - i,
{
    if i < s.len() && seq_lt(s[i], x) {
        lemma_rank(s, x, i + 1);
    }
}

/// Putting a new item at its rank keeps an ascending list ascending, and
/// adds the item to its members and nothing else.
pub proof fn lemma_insert_at_rank(rest: Seq<Seq<u8>>, x: Seq<u8>)
    requires
        ascending(rest),
        !rest.contains(x),
    ensures
        0 <= rank_from(rest, x, 0) <= rest.len(),
        ascending(rest.insert(rank_from(rest, x, 0), x)),
        forall|y: Seq<u8>|
            rest.insert(rank_from(rest, x, 0), x).contains(y) <==> (rest.contains(y) || y == x),
{
    let r = rank_from(rest, x, 0);
    lemma_rank(rest, x, 0);
    let now = rest.insert(r, x);
    assert forall|j: int| r <= j < rest.len() implies seq_lt(x, #[trigger] rest[j]) by {
        lemma_seq_lt_order(rest[r], rest[j], x);
        lemma_seq_lt_order(x, rest[j], x);
        assert(rest.contains(rest[j]));
    }
    assert forall|i: int, j: int| 0 <= i < j < now.len() implies seq_lt(
        #[trigger] now[i],
        #[trigger] now[j],
    ) by {
        let bi = if i < r { i } else { i - 1 };
        let bj = if j < r { j } else { j - 1 };
        if i != r && j != r {
            assert(seq_lt(rest[bi], rest[bj]));
        } else if i == r {
            assert(seq_lt(x, rest[bj]));
        } else {
            assert(seq_lt(rest[bi], x));
        }
    }
    assert forall|y: Seq<u8>| now.contains(y) <==> (rest.contains(y) || y == x) by {
        if now.contains(y) {
            let i = choose|i: int| 0 <= i < now.len() && now[i] == y;
            if i != r {
                let bi = if i < r { i } else { i - 1 };
                assert(rest[bi] == y);
            }
        }
        if rest.contains(y) {
            let i = choose|i: int| 0 <= i < rest.len() && rest[i] == y;
            assert(now[if i < r { i } else { i + 1 }] == y);
        }
        if y == x {
            assert(now[r] == y);
        }
    }
}

/// The sorted ids of ids that are all different are ascending, and they
/// are the same ids.
pub proof fn lemma_sort_ids(ids: Seq<Seq<u8>>, n: int)
    requires
        0 <= n <= ids.len(),
        ids.no_duplicates(),
    ensures
        ascending(sort_ids(ids, n)),
        forall|x: Seq<u8>|
            sort_ids(ids, n).contains(x) <==> exists|k: int| 0 <= k < n && #[trigger] ids[k] == x,
    decreases n,
{
    if n > 0 {
        lemma_sort_ids(ids, n - 1);
        let rest = sort_ids(ids, n - 1);
        let x = ids[n - 1];
        assert(!rest.contains(x)) by {
            if rest.contains(x) {
                let k = choose|k: int| 0 <= k < n - 1 && #[trigger] ids[k] == x;
                assert(ids[k] == ids[n - 1]);
            }
        }
        lemma_insert_at_rank(rest, x);
        let now = rest.insert(rank_from(rest, x, 0), x);
        assert(now == sort_ids(ids, n));
        assert forall|y: Seq<u8>| now.contains(y) <==> exists|k: int|
            0 <= k < n && #[trigger] ids[k] == y by {
            if now.contains(y) {
                if y == x {
                    assert(ids[n - 1] == y);
                } else {
                    assert(rest.contains(y));
                    let k = choose|k: int| 0 <= k < n - 1 && #[trigger] ids[k] == y;
                    assert(0 <= k < n && ids[k] == y);
                }
            }
            if exists|k: int| 0 <= k < n && #[trigger] ids[k] == y {
                let k = choose|k: int| 0 <= k < n && #[trigger] ids[k] == y;
                if k < n - 1 {
                    assert(rest.contains(y));
                }
                assert(now.contains(y));
            }
        }
    }
}

/// Two ascending lists with the same members are the same list.
pub proof fn lemma_ascending_unique(s: Seq<Seq<u8>>, t: Seq<Seq<u8>>)
    requires
        ascending(s),
        ascending(t),
        forall|x: Seq<u8>| s.contains(x) <==> t.contains(x),
    ensures
        s == t,
    decreases s.len(),
{
    if s.len() == 0 {
        if t.len() > 0 {
            assert(t.contains(t[0]));
        }
        assert(s =~= t);
    } else {
        let a = s.last();
        assert(s.contains(s[s.len() - 1]));
        assert(t.contains(a));
        let b = t.last();
        assert(t.contains(t[t.len() - 1]));
        assert(s.contains(b));
        let i = choose|i: int| 0 <= i < t.len() && t[i] == a;
        let j = choose|j: int| 0 <= j < s.len() && s[j] == b;
        lemma_seq_lt_order(a, b, a);
        if i < t.len() - 1 {
            assert(seq_lt(t[i], t[t.len() - 1]));
            if j < s.len() - 1 {
                assert(seq_lt(s[j], s[s.len() - 1]));
            }
        }
        assert(a == b);
        let s1 = s.drop_last();
        let t1 = t.drop_last();
        assert forall|x: Seq<u8>| s1.contains(x) <==> t1.contains(x) by {
            lemma_seq_lt_order(x, a, x);
            if s1.contains(x) {
                let k = choose|k: int| 0 <= k < s1.len() && s1[k] == x;
                assert(seq_lt(s[k], s[s.len() - 1]));
                assert(s.contains(s[k]));
                let m = choose|m: int| 0 <= m < t.len() && t[m] == x;
                assert(t1[m] == x);
            }
            if t1.contains(x) {
                let k = choose|k: int| 0 <= k < t1.len() && t1[k] == x;
                assert(seq_lt(t[k], t[t.len() - 1]));
                assert(t.contains(t[k]));
                let m = choose|m: int| 0 <= m < s.len() && s[m] == x;
                assert(s1[m] == x);
            }
        }
        assert(ascending(s1)) by {
            assert forall|i: int, j: int| 0 <= i < j < s1.len() implies seq_lt(
                #[trigger] s1[i],
                #[trigger] s1[j],
            ) by {
                assert(seq_lt(s[i], s[j]));
            }
        }
        assert(ascending(t1)) by {
            assert forall|i: int, j: int| 0 <= i < j < t1.len() implies seq_lt(
                #[trigger] t1[i],
                #[trigger] t1[j],
            ) by {
                assert(seq_lt(t[i], t[j]));
            }
        }
        lemma_ascending_unique(s1, t1);
        assert(s =~= s1.push(a));
        assert(t =~= t1.push(b));
    }
}

/// An item put into a list adds its length to the joined text.
pub proof fn lemma_concat_insert(s: Seq<Seq<u8>>, i: int, x: Seq<u8>)
    requires
        0 <= i <= s.len(),
    ensures
        concat(s.insert(i, x)).len() == concat(s).len() + x.len(),
    decreases s.len(),
{
    let t = s.insert(i, x);
    if i == s.len() {
        assert(t.drop_last() =~= s);
        assert(t.last() == x);
    } else {
        assert(t.drop_last() =~= s.drop_last().insert(i, x));
        assert(t.last() == s.last());
        lemma_concat_insert(s.drop_last(), i, x);
    }
}

/// What is digested for a well-formed index is its ids in ascending order.
pub proof fn lemma_ids_text_sorted(ps: Seq<Packet>)
    requires
        distinct_ids(ps),
    ensures
        ascending(sort_ids(ids_of(ps), ps.len() as int)),
        forall|x: Seq<u8>| sort_ids(ids_of(ps), ps.len() as int).contains(x) <==> has_id(ps, x),
{
    let ids = ids_of(ps);
    assert(ids.no_duplicates());
    lemma_sort_ids(ids, ps.len() as int);
    assert forall|x: Seq<u8>| sort_ids(ids, ps.len() as int).contains(x) <==> has_id(ps, x) by {
        if has_id(ps, x) {
            let i = choose|i: int| 0 <= i < ps.len() && (#[trigger] ps[i]).id@ == x;
            assert(ids[i] == x);
        }
        if sort_ids(ids, ps.len() as int).contains(x) {
            let k = choose|k: int| 0 <= k < ps.len() && #[trigger] ids[k] == x;
            assert(ps[k].id@ == x);
        }
    }
}


impl Index {
    /// For each packet, whether it depends on itself through its
    /// dependencies: an integrity error of the repository.
    pub fn cycles(&self) -> (r: Vec<bool>)
        requires
            self.wf(),
        ensures
            r@.len() == self.entries().len(),
            forall|a: int|
                0 <= a < self.entries().len() ==> r@[a] == crate::graph::on_cycle(self.entries(), a),
    {
        crate::graph::cycle_marks(&self.packets)
    }
}


/// The marks of the packets with the name `name`.
pub open spec fn named(ps: Seq<Packet>, name: Seq<u8>) -> Seq<bool> {
    Seq::new(ps.len(), |i: int| ps[i].name@ == name)
}

/// The marks of the packets that depend directly on packet `a`.
pub open spec fn users(ps: Seq<Packet>, a: int) -> Seq<bool> {
    Seq::new(ps.len(), |x: int| crate::graph::edge(ps, x, a))
}

impl Index {
    /// The ids of the packets with the name `name`, by time ascending.
    pub fn by_name(&self, name: &[u8]) -> (r: Vec<Vec<u8>>)
        ensures
            crate::bytes::views(r@) == crate::query::marked_ids(
                self.entries(),
                named(self.entries(), name@),
                self.entries().len() as int,
            ),
    {
        let mut marks: Vec<bool> = Vec::new();
        let mut i: usize = 0;
        while i < self.packets.len()
            invariant
                i <= self.packets.len(),
                marks@.len() == i,
                forall|k: int| 0 <= k < i ==> marks@[k] == (self.packets@[k].name@ == name@),
            decreases self.packets.len() - i,
        {
            marks.push(bytes_eq(self.packets[i].name.as_slice(), name));
            i += 1;
        }
        assert(marks@ =~= named(self.entries(), name@));
        crate::query::ids_of_marks(self, &marks)
    }

    /// The ids of the packets that the packet `id` depends on directly, by
    /// time ascending. Nothing where the index has no such packet.
    pub fn depends_on(&self, id: &[u8]) -> (r: Vec<Vec<u8>>)
        requires
            self.wf(),
        ensures
            !self.ids().contains(id@) ==> r@.len() == 0,
            forall|a: int|
                0 <= a < self.entries().len() && (#[trigger] self.entries()[a]).id@ == id@
                    ==> crate::bytes::views(r@) == crate::query::marked_ids(
                    self.entries(),
                    crate::graph::direct(self.entries(), a),
                    self.entries().len() as int,
                ),
    {
        match position_of(&self.packets, id) {
            None => Vec::new(),
            Some(a) => {
                let marks = crate::graph::direct_marks(&self.packets, a);
                crate::query::ids_of_marks(self, &marks)
            },
        }
    }

    /// The ids of the packets that depend directly on the packet `id`, by
    /// time ascending. Nothing where the index has no such packet.
    pub fn used_by(&self, id: &[u8]) -> (r: Vec<Vec<u8>>)
        requires
            self.wf(),
        ensures
            !self.ids().contains(id@) ==> r@.len() == 0,
            forall|a: int|
                0 <= a < self.entries().len() && (#[trigger] self.entries()[a]).id@ == id@
                    ==> crate::bytes::views(r@) == crate::query::marked_ids(
                    self.entries(),
                    users(self.entries(), a),
                    self.entries().len() as int,
                ),
    {
        match position_of(&self.packets, id) {
            None => Vec::new(),
            Some(a) => {
                let mut marks: Vec<bool> = Vec::new();
                let mut x: usize = 0;
                while x < self.packets.len()
                    invariant
                        x <= self.packets.len(),
                        a < self.packets.len(),
                        self.wf(),
                        marks@.len() == x,
                        forall|k: int|
                            0 <= k < x ==> marks@[k] == crate::graph::edge(self.packets@, k, a as int),
                    decreases self.packets.len() - x,
                {
                    let direct = crate::graph::direct_marks(&self.packets, x);
                    marks.push(direct[a]);
                    x += 1;
                }
                assert(marks@ =~= users(self.entries(), a as int));
                crate::query::ids_of_marks(self, &marks)
            },
        }
    }
}

/// What is digested stands for the set of ids: two indexes with the same
/// ids give the same text.
pub proof fn lemma_ids_text_of_set(one: Seq<Packet>, two: Seq<Packet>)
    requires
        distinct_ids(one),
        distinct_ids(two),
        forall|id: Seq<u8>| has_id(one, id) <==> has_id(two, id),
    ensures
        ids_text(one) == ids_text(two),
{
    lemma_ids_text_sorted(one);
    lemma_ids_text_sorted(two);
    let s = sort_ids(ids_of(one), one.len() as int);
    let t = sort_ids(ids_of(two), two.len() as int);
    assert forall|x: Seq<u8>| s.contains(x) <==> t.contains(x) by {
        assert(s.contains(x) <==> has_id(one, x));
        assert(t.contains(x) <==> has_id(two, x));
    }
    lemma_ascending_unique(s, t);
}

/// A packet with a new id that is not empty changes what is digested: the
/// text grows by the length of the id.
pub proof fn lemma_ids_text_grows(before: Seq<Packet>, after: Seq<Packet>, x: Seq<u8>)
    requires
        distinct_ids(before),
        distinct_ids(after),
        !has_id(before, x),
        forall|id: Seq<u8>| has_id(after, id) <==> (has_id(before, id) || id == x),
    ensures
        ids_text(after).len() == ids_text(before).len() + x.len(),
        x.len() > 0 ==> ids_text(after) != ids_text(before),
{
    lemma_ids_text_sorted(before);
    lemma_ids_text_sorted(after);
    let s1 = sort_ids(ids_of(before), before.len() as int);
    let s2 = sort_ids(ids_of(after), after.len() as int);
    assert(s1.contains(x) <==> has_id(before, x));
    lemma_insert_at_rank(s1, x);
    let r = rank_from(s1, x, 0);
    assert forall|y: Seq<u8>| s1.insert(r, x).contains(y) <==> s2.contains(y) by {
        assert(s1.contains(y) <==> has_id(before, y));
        assert(s2.contains(y) <==> has_id(after, y));
    }
    lemma_ascending_unique(s1.insert(r, x), s2);
    lemma_concat_insert(s1, r, x);
}

} // verus!
