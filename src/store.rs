use vstd::prelude::*;


use crate::text::bytes_eq;

verus! {

/// A row of a table of the cache, keyed by the portal's identifier of its entity.
pub trait Record: Sized {
    spec fn key(&self) -> Seq<u8>;

    /// The row reflects a completed fetch of its entity.
    spec fn is_done(&self) -> bool;

    /// What the row becomes when `new` is written over it.
    spec fn merged(&self, new: Self) -> Self;

    /// Writing over a row keeps its key and never takes back its completeness.
    proof fn lemma_merged(&self, new: Self)
        requires
            new.key() == self.key(),
        ensures
            self.merged(new).key() == self.key(),
            self.is_done() ==> self.merged(new).is_done(),
            new.is_done() ==> self.merged(new).is_done(),
    ;

    fn key_of(&self) -> (r: &[u8])
        ensures
            r@ == self.key(),
    ;

    fn merge(&mut self, new: Self)
        ensures
            *final(self) == old(self).merged(new),
    ;
}

/// Every key stands at most once in `t`.
pub open spec fn keys_unique<T: Record>(t: Seq<T>) -> bool {
    forall|i: int, j: int| 0 <= i < j < t.len() ==> #[trigger] t[i].key() != #[trigger] t[j].key()
}

/// The position of the row with key `k` in `t`, if there is one.
pub open spec fn has_key<T: Record>(t: Seq<T>, k: Seq<u8>) -> bool {
    exists|i: int| 0 <= i < t.len() && #[trigger] t[i].key() == k
}

/// The table `t` after an insert-or-update of `r` on its key.
pub open spec fn upserted<T: Record>(t: Seq<T>, r: T) -> Seq<T> {
    if has_key(t, r.key()) {
        let i = choose|i: int| 0 <= i < t.len() && #[trigger] t[i].key() == r.key();
        t.update(i, t[i].merged(r))
    } else {
        t.push(r)
    }
}

/// The table `t` after an insert of each row of `rs` whose key is not there yet, in order.
pub open spec fn inserted_absent<T: Record>(t: Seq<T>, rs: Seq<T>) -> Seq<T>
    decreases rs.len(),
{
    if rs.len() == 0 {
        t
    } else {
        let t2 = inserted_absent(t, rs.drop_last());
        if has_key(t2, rs.last().key()) {
            t2
        } else {
            t2.push(rs.last())
        }
    }
}

/// `t2` holds every row of `t1` at the same place with the same key, and each row that was
/// complete is still complete.
pub open spec fn grows_from<T: Record>(t1: Seq<T>, t2: Seq<T>) -> bool {
    &&& t1.len() <= t2.len()
    &&& forall|i: int| 0 <= i < t1.len() ==> #[trigger] t2[i].key() == t1[i].key()
    &&& forall|i: int| 0 <= i < t1.len() && t1[i].is_done() ==> #[trigger] t2[i].is_done()
}

/// The position of the row with key `k` in `t`.
pub fn find<T: Record>(t: &Vec<T>, k: &[u8]) -> (r: Option<usize>)
    ensures
        r matches Some(i) ==> i < t@.len() && t@[i as int].key() == k@,
        r is None ==> !has_key(t@, k@),
{
    let mut i: usize = 0;
    while i < t.len()
        invariant
            i <= t@.len(),
            forall|j: int| 0 <= j < i ==> t@[j].key() != k@,
        decreases t@.len() - i,
    {
        if bytes_eq(t[i].key_of(), k) {
            return Some(i);
        }
        i = i + 1;
    }
    None
}

proof fn lemma_unique_index<T: Record>(t: Seq<T>, i: int, j: int)
    requires
        keys_unique(t),
        0 <= i < t.len(),
        0 <= j < t.len(),
        t[i].key() == t[j].key(),
    ensures
        i == j,
{
    if i < j {
        assert(t[i].key() != t[j].key());
    } else if j < i {
        assert(t[j].key() != t[i].key());
    }
}

/// Insert-or-update of `r` on its key.
pub fn upsert<T: Record>(t: &mut Vec<T>, r: T)
    requires
        keys_unique(old(t)@),
    ensures
        keys_unique(final(t)@),
        final(t)@ == upserted(old(t)@, r),
        grows_from(old(t)@, final(t)@),
        has_key(final(t)@, r.key()),
        row_of(final(t)@, r.key()) == Some(
            if has_key(old(t)@, r.key()) {
                row_of(old(t)@, r.key()).unwrap().merged(r)
            } else {
                r
            },
        ),
{
    let ghost k = r.key();
    match find(t, r.key_of()) {
        Some(i) => {
            proof {
                let c = choose|c: int| 0 <= c < t@.len() && #[trigger] t@[c].key() == k;
                lemma_unique_index(t@, c, i as int);
                t@[i as int].lemma_merged(r);
            }
            let ghost before = t@;
            t[i].merge(r);
            proof {
                assert(t@ == before.update(i as int, before[i as int].merged(r)));
                assert forall|a: int, b: int| 0 <= a < b < t@.len() implies #[trigger] t@[a].key()
                    != #[trigger] t@[b].key() by {
                    assert(before[a].key() != before[b].key());
                }
                assert(t@[i as int].key() == k);
                lemma_row_at(t@, i as int);
                lemma_row_at(before, i as int);
            }
        },
        None => {
            let ghost before = t@;
            t.push(r);
            proof {
                assert forall|a: int, b: int| 0 <= a < b < t@.len() implies #[trigger] t@[a].key()
                    != #[trigger] t@[b].key() by {
                    if b < before.len() {
                        assert(before[a].key() != before[b].key());
                    } else {
                        assert(before[a].key() != k);
                    }
                }
                assert(t@[before.len() as int].key() == k);
                lemma_row_at(t@, before.len() as int);
            }
        },
    }
}

/// Insert of each row of `rs` whose key is not in the table yet; rows already there stay as they are.
pub fn insert_absent<T: Record>(t: &mut Vec<T>, rs: Vec<T>)
    requires
        keys_unique(old(t)@),
    ensures
        keys_unique(final(t)@),
        final(t)@ == inserted_absent(old(t)@, rs@),
        final(t)@.subrange(0, old(t)@.len() as int) == old(t)@,
        grows_from(old(t)@, final(t)@),
        forall|j: int| 0 <= j < rs@.len() ==> has_key(final(t)@, #[trigger] rs@[j].key()),
{
    let ghost start = t@;
    let ghost all = rs@;
    let total = rs.len();
    let mut rs = rs;
    let mut rest: Vec<T> = Vec::new();
    // take the rows in order: reverse once so that `pop` yields the first
    while rs.len() > 0
        invariant
            rest@ + rs@.reverse() == all.reverse(),
        decreases rs@.len(),
    {
        let x = rs.pop().unwrap();
        proof {
            assert(rest@.push(x) + rs@.reverse() =~= all.reverse());
        }
        rest.push(x);
    }
    assert(rest@ =~= all.reverse());
    let mut n: usize = 0;
    while rest.len() > 0
        invariant
            keys_unique(t@),
            rest@.len() + n == all.len(),
            all.len() == total,
            rest@ == all.subrange(n as int, all.len() as int).reverse(),
            t@ == inserted_absent(start, all.subrange(0, n as int)),
            t@.subrange(0, start.len() as int) == start,
            start.len() <= t@.len(),
            forall|j: int| 0 <= j < n ==> has_key(t@, #[trigger] all[j].key()),
        decreases rest@.len(),
    {
        let x = rest.pop().unwrap();
        proof {
            assert(x == all[n as int]);
            assert(rest@ =~= all.subrange(n + 1, all.len() as int).reverse());
            assert(all.subrange(0, n + 1).drop_last() =~= all.subrange(0, n as int));
        }
        let ghost before = t@;
        match find(t, x.key_of()) {
            Some(i) => {
                proof {
                    assert(has_key(before, x.key()));
                }
            },
            None => {
                let ghost k = x.key();
                t.push(x);
                proof {
                    assert forall|a: int, b: int| 0 <= a < b < t@.len() implies #[trigger] t@[a].key()
                        != #[trigger] t@[b].key() by {
                        if b < before.len() {
                            assert(before[a].key() != before[b].key());
                        } else {
                            assert(before[a].key() != k);
                        }
                    }
                    assert(t@.subrange(0, start.len() as int) =~= before.subrange(0, start.len() as int));
                    assert(t@[before.len() as int].key() == k);
                    assert forall|j: int| 0 <= j < n implies has_key(t@, #[trigger] all[j].key()) by {
                        let w = choose|w: int| 0 <= w < before.len() && #[trigger] before[w].key() == all[j].key();
                        assert(t@[w] == before[w]);
                    }
                }
            },
        }
        n = n + 1;
    }
    assert(all.subrange(0, all.len() as int) =~= all);
    proof {
        assert forall|i: int| 0 <= i < start.len() implies #[trigger] t@[i] == start[i] by {
            assert(t@.subrange(0, start.len() as int)[i] == t@[i]);
        }
    }
}


/// A row of a join table, which relates two identifiers.
pub trait Link: Sized {
    spec fn ends(&self) -> (Seq<u8>, Seq<u8>);

    fn first_of(&self) -> (r: &[u8])
        ensures
            r@ == self.ends().0,
    ;

    fn second_of(&self) -> (r: &[u8])
        ensures
            r@ == self.ends().1,
    ;
}

pub open spec fn has_link<T: Link>(t: Seq<T>, ends: (Seq<u8>, Seq<u8>)) -> bool {
    exists|i: int| 0 <= i < t.len() && #[trigger] t[i].ends() == ends
}

/// The join table `t` with `l` added, unless the same pair is there already.
pub open spec fn linked<T: Link>(t: Seq<T>, l: T) -> Seq<T> {
    if has_link(t, l.ends()) {
        t
    } else {
        t.push(l)
    }
}

/// Adds the pair `l` to a join table, unless it is there already.
pub fn insert_link<T: Link>(t: &mut Vec<T>, l: T)
    ensures
        final(t)@ == linked(old(t)@, l),
        has_link(final(t)@, l.ends()),
{
    let mut i: usize = 0;
    while i < t.len()
        invariant
            i <= t@.len(),
            forall|j: int| 0 <= j < i ==> #[trigger] t@[j].ends() != l.ends(),
        decreases t@.len() - i,
    {
        let same = bytes_eq(t[i].first_of(), l.first_of()) && bytes_eq(t[i].second_of(), l.second_of());
        if same {
            assert(t@[i as int].ends() == l.ends());
            return;
        }
        i = i + 1;
    }
    let ghost before = t@;
    t.push(l);
    assert(t@[before.len() as int].ends() == l.ends());
}

/// Adds each pair of `ls` in order, skipping those already there.
pub fn insert_links<T: Link>(t: &mut Vec<T>, ls: Vec<T>)
    ensures
        forall|j: int| 0 <= j < ls@.len() ==> has_link(final(t)@, #[trigger] ls@[j].ends()),
        forall|e: (Seq<u8>, Seq<u8>)| has_link(old(t)@, e) ==> has_link(final(t)@, e),
        forall|e: (Seq<u8>, Seq<u8>)|
            has_link(final(t)@, e) ==> has_link(old(t)@, e) || exists|j: int|
                0 <= j < ls@.len() && #[trigger] ls@[j].ends() == e,
{
    let ghost start = t@;
    let ghost all = ls@;
    let total = ls.len();
    let mut ls = ls;
    let mut rest: Vec<T> = Vec::new();
    while ls.len() > 0
        invariant
            rest@ + ls@.reverse() == all.reverse(),
        decreases ls@.len(),
    {
        let x = ls.pop().unwrap();
        proof {
            assert(rest@.push(x) + ls@.reverse() =~= all.reverse());
        }
        rest.push(x);
    }
    assert(rest@ =~= all.reverse());
    let mut n: usize = 0;
    while rest.len() > 0
        invariant
            rest@.len() + n == all.len(),
            all.len() == total,
            rest@ == all.subrange(n as int, all.len() as int).reverse(),
            forall|j: int| 0 <= j < n ==> has_link(t@, #[trigger] all[j].ends()),
            forall|e: (Seq<u8>, Seq<u8>)| has_link(start, e) ==> has_link(t@, e),
            forall|e: (Seq<u8>, Seq<u8>)|
                has_link(t@, e) ==> has_link(start, e) || exists|j: int|
                    0 <= j < n && #[trigger] all[j].ends() == e,
        decreases rest@.len(),
    {
        let l = rest.pop().unwrap();
        proof {
            assert(l == all[n as int]);
            assert(rest@ =~= all.subrange(n + 1, all.len() as int).reverse());
        }
        let ghost before = t@;
        insert_link(t, l);
        proof {
            assert forall|e: (Seq<u8>, Seq<u8>)| has_link(before, e) implies has_link(t@, e) by {
                let w = choose|w: int| 0 <= w < before.len() && #[trigger] before[w].ends() == e;
                assert(t@[w] == before[w]);
            }
            assert forall|e: (Seq<u8>, Seq<u8>)| has_link(t@, e) implies has_link(start, e) || exists|j: int|
                0 <= j < n + 1 && #[trigger] all[j].ends() == e by {
                let w = choose|w: int| 0 <= w < t@.len() && #[trigger] t@[w].ends() == e;
                if w < before.len() {
                    assert(before[w] == t@[w]);
                    assert(has_link(before, e));
                } else {
                    assert(all[n as int].ends() == e);
                }
            }
        }
        n = n + 1;
    }
}

/// The row of `t` with key `k`, if there is one.
pub open spec fn row_of<T: Record>(t: Seq<T>, k: Seq<u8>) -> Option<T> {
    if has_key(t, k) {
        Some(t[choose|i: int| 0 <= i < t.len() && #[trigger] t[i].key() == k])
    } else {
        None
    }
}

/// `t` has a complete row with key `k`.
pub open spec fn done_row<T: Record>(t: Seq<T>, k: Seq<u8>) -> bool {
    row_of(t, k) matches Some(r) && r.is_done()
}

/// The rows of `t` that the join table `links` relates to `k`, in the order of `links`.
pub open spec fn linked_rows<L: Link, T: Record>(links: Seq<L>, t: Seq<T>, k: Seq<u8>) -> Seq<T>
    decreases links.len(),
{
    if links.len() == 0 {
        Seq::empty()
    } else {
        let prev = linked_rows(links.drop_last(), t, k);
        let e = links.last().ends();
        if e.0 == k && has_key(t, e.1) {
            prev.push(row_of(t, e.1).unwrap())
        } else {
            prev
        }
    }
}

pub proof fn lemma_row_at<T: Record>(t: Seq<T>, i: int)
    requires
        keys_unique(t),
        0 <= i < t.len(),
    ensures
        row_of(t, t[i].key()) == Some(t[i]),
{
    let k = t[i].key();
    assert(has_key(t, k));
    let c = choose|c: int| 0 <= c < t.len() && #[trigger] t[c].key() == k;
    lemma_unique_index(t, c, i);
}

/// The row with key `k`.
pub fn get<'a, T: Record>(t: &'a Vec<T>, k: &[u8]) -> (r: Option<&'a T>)
    requires
        keys_unique(t@),
    ensures
        r matches Some(x) ==> row_of(t@, k@) == Some(*x),
        r is None ==> row_of(t@, k@) is None,
{
    match find(t, k) {
        Some(i) => {
            proof {
                lemma_row_at(t@, i as int);
            }
            Some(&t[i])
        },
        None => None,
    }
}

/// The rows of `t` that `links` relates to `k`.
pub fn get_linked<'a, L: Link, T: Record>(links: &Vec<L>, t: &'a Vec<T>, k: &[u8]) -> (r: Vec<&'a T>)
    requires
        keys_unique(t@),
    ensures
        r@.map_values(|x: &T| *x) == linked_rows(links@, t@, k@),
{
    let mut r: Vec<&'a T> = Vec::new();
    let mut i: usize = 0;
    while i < links.len()
        invariant
            i <= links@.len(),
            keys_unique(t@),
            r@.map_values(|x: &T| *x) == linked_rows(links@.subrange(0, i as int), t@, k@),
        decreases links@.len() - i,
    {
        assert(links@.subrange(0, i + 1).drop_last() =~= links@.subrange(0, i as int));
        let ghost prev = r@;
        if bytes_eq(links[i].first_of(), k) {
            match get(t, links[i].second_of()) {
                Some(x) => {
                    r.push(x);
                    assert(r@.map_values(|x: &T| *x) =~= prev.map_values(|x: &T| *x).push(*x));
                },
                None => {},
            }
        }
        i = i + 1;
    }
    assert(links@.subrange(0, links@.len() as int) =~= links@);
    r
}


/// The table `t` after an insert-or-update of each row of `rs`, in order.
pub open spec fn upserted_all<T: Record>(t: Seq<T>, rs: Seq<T>) -> Seq<T>
    decreases rs.len(),
{
    if rs.len() == 0 {
        t
    } else {
        upserted(upserted_all(t, rs.drop_last()), rs.last())
    }
}

/// Insert-or-update of each row of `rs`, in order.
pub fn upsert_all<T: Record>(t: &mut Vec<T>, rs: Vec<T>)
    requires
        keys_unique(old(t)@),
    ensures
        keys_unique(final(t)@),
        final(t)@ == upserted_all(old(t)@, rs@),
        grows_from(old(t)@, final(t)@),
{
    let ghost start = t@;
    let ghost all = rs@;
    let total = rs.len();
    let mut rs = rs;
    let mut rest: Vec<T> = Vec::new();
    while rs.len() > 0
        invariant
            rest@ + rs@.reverse() == all.reverse(),
        decreases rs@.len(),
    {
        let x = rs.pop().unwrap();
        proof {
            assert(rest@.push(x) + rs@.reverse() =~= all.reverse());
        }
        rest.push(x);
    }
    assert(rest@ =~= all.reverse());
    let mut n: usize = 0;
    while rest.len() > 0
        invariant
            keys_unique(t@),
            rest@.len() + n == all.len(),
            all.len() == total,
            rest@ == all.subrange(n as int, all.len() as int).reverse(),
            t@ == upserted_all(start, all.subrange(0, n as int)),
            grows_from(start, t@),
        decreases rest@.len(),
    {
        let x = rest.pop().unwrap();
        proof {
            assert(x == all[n as int]);
            assert(rest@ =~= all.subrange(n + 1, all.len() as int).reverse());
            assert(all.subrange(0, n + 1).drop_last() =~= all.subrange(0, n as int));
        }
        upsert(t, x);
        n = n + 1;
    }
    assert(all.subrange(0, all.len() as int) =~= all);
}

/// Once a table holds a complete row for a key, every table that grows from it does too,
/// with the same key.
pub proof fn lemma_done_row_grows<T: Record>(t1: Seq<T>, t2: Seq<T>, k: Seq<u8>)
    requires
        keys_unique(t1),
        keys_unique(t2),
        grows_from(t1, t2),
        done_row(t1, k),
    ensures
        done_row(t2, k),
{
    let i = choose|i: int| 0 <= i < t1.len() && #[trigger] t1[i].key() == k;
    lemma_row_at(t1, i);
    assert(t2[i].key() == k);
    lemma_row_at(t2, i);
}

proof fn lemma_inserted_absent_prefix<T: Record>(t: Seq<T>, rs: Seq<T>)
    requires
        keys_unique(t),
    ensures
        keys_unique(inserted_absent(t, rs)),
        inserted_absent(t, rs).len() >= t.len(),
        forall|i: int| 0 <= i < t.len() ==> #[trigger] inserted_absent(t, rs)[i] == t[i],
    decreases rs.len(),
{
    if rs.len() > 0 {
        lemma_inserted_absent_prefix(t, rs.drop_last());
        let t2 = inserted_absent(t, rs.drop_last());
        if !has_key(t2, rs.last().key()) {
            let t3 = t2.push(rs.last());
            assert forall|a: int, b: int| 0 <= a < b < t3.len() implies #[trigger] t3[a].key() != #[trigger] t3[b].key() by {
                if b < t2.len() {
                    assert(t2[a].key() != t2[b].key());
                }
            }
        }
    }
}

/// A batch of stubs written with insert-if-absent leaves every row that was there as it was,
/// a stub as well as a complete record.
pub proof fn lemma_stub_batch_keeps_rows<T: Record>(t: Seq<T>, rs: Seq<T>, k: Seq<u8>)
    requires
        keys_unique(t),
        has_key(t, k),
    ensures
        row_of(inserted_absent(t, rs), k) == row_of(t, k),
{
    lemma_inserted_absent_prefix(t, rs);
    let t2 = inserted_absent(t, rs);
    let i = choose|i: int| 0 <= i < t.len() && #[trigger] t[i].key() == k;
    lemma_row_at(t, i);
    assert(t2[i] == t[i]);
    lemma_row_at(t2, i);
}

/// Writing over the row of `r.key()` leaves a table with one row per key, in which that row
/// is the old row merged with `r`.
pub proof fn lemma_upserted_row<T: Record>(t: Seq<T>, r: T)
    requires
        keys_unique(t),
        has_key(t, r.key()),
    ensures
        row_of(upserted(t, r), r.key()) == Some(row_of(t, r.key()).unwrap().merged(r)),
{
    let i = choose|i: int| 0 <= i < t.len() && #[trigger] t[i].key() == r.key();
    lemma_row_at(t, i);
    t[i].lemma_merged(r);
    let t2 = upserted(t, r);
    assert forall|a: int, b: int| 0 <= a < b < t2.len() implies #[trigger] t2[a].key() != #[trigger] t2[b].key() by {
        assert(t[a].key() != t[b].key());
    }
    lemma_row_at(t2, i);
}

/// On an empty table, an insert-or-update leaves exactly the written row, and a batch of stubs
/// with distinct keys leaves exactly those stubs, in order.
pub proof fn lemma_cold_table<T: Record>(r: T, rs: Seq<T>)
    requires
        keys_unique(rs),
    ensures
        upserted(Seq::<T>::empty(), r) == seq![r],
        inserted_absent(Seq::<T>::empty(), rs) == rs,
    decreases rs.len(),
{
    assert(Seq::<T>::empty().push(r) =~= seq![r]);
    if rs.len() > 0 {
        let p = rs.drop_last();
        assert forall|i: int, j: int| 0 <= i < j < p.len() implies #[trigger] p[i].key() != #[trigger] p[j].key() by {
            assert(rs[i].key() != rs[j].key());
        }
        lemma_cold_table(r, p);
        if has_key(p, rs.last().key()) {
            let i = choose|i: int| 0 <= i < p.len() && #[trigger] p[i].key() == rs.last().key();
            assert(rs[i].key() != rs[rs.len() - 1].key());
        }
        assert(p.push(rs.last()) =~= rs);
    }
}

} // verus!
