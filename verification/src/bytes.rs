//! Byte strings: equality, the lexical order, and small helpers.

use vstd::prelude::*;

verus! {

/// The lexical order on byte strings, read from position `i` on.
pub open spec fn lt_from(a: Seq<u8>, b: Seq<u8>, i: int) -> bool
    decreases a.len() - i,
{
    if i < 0 || i >= b.len() {
        false
    } else if i >= a.len() {
        true
    } else if a[i] != b[i] {
        a[i] < b[i]
    } else {
        lt_from(a, b, i + 1)
    }
}

/// `a` comes strictly before `b` in the lexical order.
pub open spec fn seq_lt(a: Seq<u8>, b: Seq<u8>) -> bool {
    lt_from(a, b, 0)
}

/// Membership of a byte string in a list of byte strings.
pub open spec fn list_has(list: Seq<Vec<u8>>, x: Seq<u8>) -> bool {
    exists|i: int| 0 <= i < list.len() && (#[trigger] list[i])@ == x
}

/// The byte strings of a list, as a set.
pub open spec fn list_set(list: Seq<Vec<u8>>) -> Set<Seq<u8>> {
    Set::new(|x: Seq<u8>| list_has(list, x))
}

pub proof fn lemma_lt_from_total(a: Seq<u8>, b: Seq<u8>, i: int)
    requires
        0 <= i,
        i <= a.len(),
        i <= b.len(),
        forall|j: int| 0 <= j < i ==> a[j] == b[j],
    ensures
        lt_from(a, b, i) || lt_from(b, a, i) || a == b,
        !(lt_from(a, b, i) && lt_from(b, a, i)),
        a == b ==> !lt_from(a, b, i),
    decreases a.len() - i,
{
    if i >= a.len() || i >= b.len() {
        if a.len() == b.len() {
            assert(a =~= b);
        }
    } else if a[i] != b[i] {
    } else {
        lemma_lt_from_total(a, b, i + 1);
    }
}

pub proof fn lemma_lt_from_transitive(a: Seq<u8>, b: Seq<u8>, c: Seq<u8>, i: int)
    requires
        0 <= i,
        lt_from(a, b, i),
        lt_from(b, c, i),
    ensures
        lt_from(a, c, i),
    decreases a.len() - i,
{
    if i < a.len() && i < b.len() && i < c.len() && a[i] == b[i] && b[i] == c[i] {
        lemma_lt_from_transitive(a, b, c, i + 1);
    }
}

/// The lexical order is a strict total order.
pub proof fn lemma_seq_lt_order(a: Seq<u8>, b: Seq<u8>, c: Seq<u8>)
    ensures
        seq_lt(a, b) || seq_lt(b, a) || a == b,
        !(seq_lt(a, b) && seq_lt(b, a)),
        !seq_lt(a, a),
        seq_lt(a, b) && seq_lt(b, c) ==> seq_lt(a, c),
{
    lemma_lt_from_total(a, b, 0);
    lemma_lt_from_total(a, a, 0);
    if seq_lt(a, b) && seq_lt(b, c) {
        lemma_lt_from_transitive(a, b, c, 0);
    }
}

pub fn bytes_eq(a: &[u8], b: &[u8]) -> (r: bool)
    ensures
        r == (a@ == b@),
{
    if a.len() != b.len() {
        return false;
    }
    let mut i: usize = 0;
    while i < a.len()
        invariant
            i <= a.len(),
            a.len() == b.len(),
            forall|j: int| 0 <= j < i ==> a@[j] == b@[j],
        decreases a.len() - i,
    {
        if a[i] != b[i] {
            return false;
        }
        i += 1;
    }
    assert(a@ =~= b@);
    true
}

pub fn bytes_lt(a: &[u8], b: &[u8]) -> (r: bool)
    ensures
        r == seq_lt(a@, b@),
{
    let mut i: usize = 0;
    while i < a.len() && i < b.len()
        invariant
            i <= a.len(),
            i <= b.len(),
            seq_lt(a@, b@) == lt_from(a@, b@, i as int),
        decreases a.len() - i,
    {
        if a[i] != b[i] {
            return a[i] < b[i];
        }
        i += 1;
    }
    i < b.len()
}

pub fn copy_bytes(a: &[u8]) -> (r: Vec<u8>)
    ensures
        r@ == a@,
{
    let mut r: Vec<u8> = Vec::new();
    let mut i: usize = 0;
    while i < a.len()
        invariant
            i <= a.len(),
            r@ == a@.take(i as int),
        decreases a.len() - i,
    {
        r.push(a[i]);
        assert(r@ =~= a@.take(i + 1));
        i += 1;
    }
    assert(a@.take(a.len() as int) =~= a@);
    r
}

/// Appends `a` to `out`.
pub fn append_bytes(out: &mut Vec<u8>, a: &[u8])
    ensures
        final(out)@ == old(out)@ + a@,
{
    let mut i: usize = 0;
    while i < a.len()
        invariant
            i <= a.len(),
            out@ == old(out)@ + a@.take(i as int),
        decreases a.len() - i,
    {
        out.push(a[i]);
        assert(out@ =~= old(out)@ + a@.take(i + 1));
        i += 1;
    }
    assert(a@.take(a.len() as int) =~= a@);
}

pub fn contains_bytes(list: &Vec<Vec<u8>>, x: &[u8]) -> (r: bool)
    ensures
        r == list_has(list@, x@),
{
    let mut i: usize = 0;
    while i < list.len()
        invariant
            i <= list.len(),
            forall|j: int| 0 <= j < i ==> (#[trigger] list@[j])@ != x@,
        decreases list.len() - i,
    {
        if bytes_eq(list[i].as_slice(), x) {
            return true;
        }
        i += 1;
    }
    false
}


/// The byte strings of a list, in order.
pub open spec fn views(list: Seq<Vec<u8>>) -> Seq<Seq<u8>> {
    Seq::new(list.len(), |i: int| list[i]@)
}

/// The items of `items` that are not in `known`, in their order.
pub open spec fn without(items: Seq<Seq<u8>>, known: Set<Seq<u8>>) -> Seq<Seq<u8>>
    decreases items.len(),
{
    if items.len() == 0 {
        Seq::<Seq<u8>>::empty()
    } else {
        let rest = without(items.drop_last(), known);
        if known.contains(items.last()) {
            rest
        } else {
            rest.push(items.last())
        }
    }
}

/// `without` keeps exactly the items outside `known`.
pub proof fn lemma_without_members(items: Seq<Seq<u8>>, known: Set<Seq<u8>>, x: Seq<u8>)
    ensures
        without(items, known).contains(x) <==> (items.contains(x) && !known.contains(x)),
    decreases items.len(),
{
    if items.len() > 0 {
        let rest = without(items.drop_last(), known);
        lemma_without_members(items.drop_last(), known, x);
        if items.contains(x) {
            let i = choose|i: int| 0 <= i < items.len() && items[i] == x;
            if i < items.len() - 1 {
                assert(items.drop_last()[i] == x);
            }
        }
        if items.drop_last().contains(x) {
            let i = choose|i: int| 0 <= i < items.drop_last().len() && items.drop_last()[i] == x;
            assert(items[i] == x);
        }
        if !known.contains(items.last()) {
            assert(rest.push(items.last())[rest.len() as int] == items.last());
            if rest.contains(x) {
                let i = choose|i: int| 0 <= i < rest.len() && rest[i] == x;
                assert(rest.push(items.last())[i] == x);
            }
        }
        assert(items[items.len() - 1] == items.last());
    }
}

/// `without` of a list that holds nothing twice holds nothing twice.
pub proof fn lemma_without_no_duplicates(items: Seq<Seq<u8>>, known: Set<Seq<u8>>)
    requires
        items.no_duplicates(),
    ensures
        without(items, known).no_duplicates(),
    decreases items.len(),
{
    if items.len() > 0 {
        let rest = without(items.drop_last(), known);
        lemma_without_no_duplicates(items.drop_last(), known);
        if !known.contains(items.last()) {
            lemma_without_members(items.drop_last(), known, items.last());
            if items.drop_last().contains(items.last()) {
                let i = choose|i: int|
                    0 <= i < items.drop_last().len() && items.drop_last()[i] == items.last();
                assert(items[i] == items[items.len() - 1]);
            }
            assert(!rest.contains(items.last()));
        }
    }
}

/// The byte strings of `items` that are not in `known`, in their order.
pub fn list_without(items: &Vec<Vec<u8>>, known: &Vec<Vec<u8>>) -> (r: Vec<Vec<u8>>)
    ensures
        views(r@) == without(views(items@), list_set(known@)),
{
    let mut out: Vec<Vec<u8>> = Vec::new();
    let mut i: usize = 0;
    assert(views(items@).take(0) =~= Seq::<Seq<u8>>::empty());
    assert(views(out@) =~= Seq::<Seq<u8>>::empty());
    while i < items.len()
        invariant
            i <= items.len(),
            views(out@) == without(views(items@).take(i as int), list_set(known@)),
        decreases items.len() - i,
    {
        let ghost before = views(out@);
        assert(views(items@).take(i + 1).drop_last() =~= views(items@).take(i as int));
        assert(views(items@).take(i + 1).last() == items@[i as int]@);
        if !contains_bytes(known, items[i].as_slice()) {
            out.push(copy_bytes(items[i].as_slice()));
            assert(views(out@) =~= before.push(items@[i as int]@));
        }
        i += 1;
    }
    assert(views(items@).take(items.len() as int) =~= views(items@));
    out
}

} // verus!
