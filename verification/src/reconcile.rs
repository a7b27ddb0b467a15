//! What a peer lacks: the packets of the index that it does not know, and
//! the files that the object store does not hold.

use crate::bytes::{contains_bytes, copy_bytes, list_set, views, without};
use crate::index::{distinct_ids, has_id, packet_lt, sorted, Index, Packet};
use crate::store::ObjectStore;
use vstd::prelude::*;

verus! {

/// Every file of the packet is among `objects`.
pub open spec fn materialized(p: Packet, objects: Set<Seq<u8>>) -> bool {
    forall|f: int| 0 <= f < p.files@.len() ==> objects.contains((#[trigger] p.files@[f]).hash@)
}

/// Packet `p` is reported: it is not known, and where the report is
/// restricted, its files are not all present.
pub open spec fn is_missing(
    p: Packet,
    known: Set<Seq<u8>>,
    restrict: bool,
    objects: Set<Seq<u8>>,
) -> bool {
    !known.contains(p.id@) && (restrict ==> !materialized(p, objects))
}

/// The positions among the first `n` packets that are reported, ascending.
pub open spec fn missing_positions(
    ps: Seq<Packet>,
    n: int,
    known: Set<Seq<u8>>,
    restrict: bool,
    objects: Set<Seq<u8>>,
) -> Seq<int>
    decreases n,
{
    if n <= 0 {
        Seq::<int>::empty()
    } else {
        let rest = missing_positions(ps, n - 1, known, restrict, objects);
        if is_missing(ps[n - 1], known, restrict, objects) {
            rest.push(n - 1)
        } else {
            rest
        }
    }
}

/// The ids of the packets at the given positions.
pub open spec fn ids_at(ps: Seq<Packet>, positions: Seq<int>) -> Seq<Seq<u8>> {
    Seq::new(positions.len(), |i: int| ps[positions[i]].id@)
}

/// Whether every file of the packet is present in the store.
pub fn is_materialized(p: &Packet, store: &ObjectStore) -> (r: bool)
    ensures
        r == materialized(*p, store.objects()),
{
    let mut f: usize = 0;
    while f < p.files.len()
        invariant
            f <= p.files.len(),
            forall|k: int| 0 <= k < f ==> store.objects().contains((#[trigger] p.files@[k]).hash@),
        decreases p.files.len() - f,
    {
        if !store.contains(p.files[f].hash.as_slice()) {
            return false;
        }
        f += 1;
    }
    true
}

/// The ids of the packets of the index that are not among `known_ids`, in
/// the order of the index. With `restrict_to_unpacked`, only those of them
/// whose files the store does not all hold.
pub fn missing_packets(
    index: &Index,
    store: &ObjectStore,
    known_ids: &Vec<Vec<u8>>,
    restrict_to_unpacked: bool,
) -> (r: Vec<Vec<u8>>)
    ensures
        views(r@) == ids_at(
            index.entries(),
            missing_positions(
                index.entries(),
                index.entries().len() as int,
                list_set(known_ids@),
                restrict_to_unpacked,
                store.objects(),
            ),
        ),
{
    let ps = index.packets();
    let mut out: Vec<Vec<u8>> = Vec::new();
    let mut i: usize = 0;
    let ghost known = list_set(known_ids@);
    assert(views(out@) =~= ids_at(
        ps@,
        missing_positions(ps@, 0, known, restrict_to_unpacked, store.objects()),
    ));
    while i < ps.len()
        invariant
            i <= ps.len(),
            known == list_set(known_ids@),
            views(out@) == ids_at(
                ps@,
                missing_positions(ps@, i as int, known, restrict_to_unpacked, store.objects()),
            ),
        decreases ps.len() - i,
    {
        let ghost before = missing_positions(
            ps@,
            i as int,
            known,
            restrict_to_unpacked,
            store.objects(),
        );
        let ghost prev = out@;
        let unknown = !contains_bytes(known_ids, ps[i].id.as_slice());
        let wanted = unknown && (!restrict_to_unpacked || !is_materialized(&ps[i], store));
        if wanted {
            out.push(copy_bytes(ps[i].id.as_slice()));
            proof {
                let now = ids_at(ps@, before.push(i as int));
                assert(views(prev).len() == before.len());
                assert forall|k: int| 0 <= k < views(out@).len() implies views(out@)[k] == now[k] by {
                    if k < prev.len() {
                        assert(views(out@)[k] == views(prev)[k]);
                        assert(views(prev)[k] == ids_at(ps@, before)[k]);
                    }
                }
                assert(views(out@) =~= now);
            }
        }
        i += 1;
    }
    out
}

/// The hashes among `known_hashes` that the store does not hold, in the
/// order given.
pub fn missing_files(store: &ObjectStore, known_hashes: &Vec<Vec<u8>>) -> (r: Vec<Vec<u8>>)
    ensures
        views(r@) == without(views(known_hashes@), store.objects()),
{
    store.missing(known_hashes)
}

/// The reported positions ascend, lie among the first `n`, and are exactly
/// the positions of the packets that are missing.
pub proof fn lemma_missing_positions(
    ps: Seq<Packet>,
    n: int,
    known: Set<Seq<u8>>,
    restrict: bool,
    objects: Set<Seq<u8>>,
)
    requires
        0 <= n <= ps.len(),
    ensures
        ({
            let m = missing_positions(ps, n, known, restrict, objects);
            &&& forall|a: int| 0 <= a < m.len() ==> 0 <= #[trigger] m[a] < n
            &&& forall|a: int, b: int| 0 <= a < b < m.len() ==> #[trigger] m[a] < #[trigger] m[b]
            &&& forall|k: int|
                0 <= k < n ==> (m.contains(k) <==> is_missing(
                    #[trigger] ps[k],
                    known,
                    restrict,
                    objects,
                ))
        }),
    decreases n,
{
    if n > 0 {
        lemma_missing_positions(ps, n - 1, known, restrict, objects);
        let rest = missing_positions(ps, n - 1, known, restrict, objects);
        let m = missing_positions(ps, n, known, restrict, objects);
        assert forall|k: int| 0 <= k < n implies (m.contains(k) <==> is_missing(
            #[trigger] ps[k],
            known,
            restrict,
            objects,
        )) by {
            if is_missing(ps[n - 1], known, restrict, objects) {
                assert(m[rest.len() as int] == n - 1);
                if k < n - 1 && rest.contains(k) {
                    let a = choose|a: int| 0 <= a < rest.len() && rest[a] == k;
                    assert(m[a] == k);
                }
                if m.contains(k) && k < n - 1 {
                    let a = choose|a: int| 0 <= a < m.len() && m[a] == k;
                    assert(rest[a] == k);
                }
            } else {
                if rest.contains(k) {
                    let a = choose|a: int| 0 <= a < rest.len() && rest[a] == k;
                    assert(0 <= rest[a] < n - 1);
                }
            }
        }
    }
}

/// Without the restriction, the report holds exactly the ids of the index
/// that are not known, each once, in ascending order of time, ties by id.
pub proof fn lemma_missing_packets_exact(ps: Seq<Packet>, known: Set<Seq<u8>>, objects: Set<Seq<u8>>)
    requires
        sorted(ps),
        distinct_ids(ps),
    ensures
        ({
            let m = missing_positions(ps, ps.len() as int, known, false, objects);
            let ids = ids_at(ps, m);
            &&& forall|id: Seq<u8>| ids.contains(id) <==> (has_id(ps, id) && !known.contains(id))
            &&& ids.no_duplicates()
            &&& forall|a: int, b: int|
                0 <= a < b < m.len() ==> packet_lt(ps[#[trigger] m[a]], ps[#[trigger] m[b]])
        }),
{
    let m = missing_positions(ps, ps.len() as int, known, false, objects);
    let ids = ids_at(ps, m);
    lemma_missing_positions(ps, ps.len() as int, known, false, objects);
    assert forall|id: Seq<u8>| ids.contains(id) <==> (has_id(ps, id) && !known.contains(id)) by {
        if ids.contains(id) {
            let a = choose|a: int| 0 <= a < ids.len() && ids[a] == id;
            assert(m.contains(m[a]));
            assert(ps[m[a]].id@ == id);
        }
        if has_id(ps, id) && !known.contains(id) {
            let k = choose|k: int| 0 <= k < ps.len() && (#[trigger] ps[k]).id@ == id;
            assert(is_missing(ps[k], known, false, objects));
            assert(m.contains(k));
            let a = choose|a: int| 0 <= a < m.len() && m[a] == k;
            assert(ids[a] == id);
        }
    }
    assert forall|a: int, b: int| 0 <= a < ids.len() && 0 <= b < ids.len() && a != b implies ids[a]
        != ids[b] by {
        if a < b {
            assert(m[a] < m[b]);
        } else {
            assert(m[b] < m[a]);
        }
    }
}

} // verus!
