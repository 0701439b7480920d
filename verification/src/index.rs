//! The chunked, sorted order index: the core container of the book.
//!
//! Orders are held as an ordered sequence of bounded-size chunks, each a
//! contiguous slice of the overall priority order, together with an
//! identifier-to-order map for constant-time lookup. The abstract state of
//! an index is the map view `self@` from identifier to order; the ordered
//! traversal `self.seq_view()` is the unique enumeration of those records
//! that is strictly ascending under the side's comparator.

use core::marker::PhantomData;
use vstd::prelude::*;
use vstd::seq_lib::lemma_flatten_concat;

use crate::cmp::lex_lt;
use crate::cmp::OrderComparator;
use crate::idmap::id_map_empty;
use crate::idmap::id_map_insert;
use crate::idmap::id_map_is_empty;
use crate::idmap::id_map_len;
use crate::idmap::id_map_new;
use crate::idmap::id_map_remove;
use crate::order::Order;

verus! {

/// The default bound on a chunk's size; a tuning knob, not a correctness
/// parameter.
pub const DEFAULT_MAX_CHUNK_SIZE: usize = 128;

/// A sequence of orders is strictly ascending under the comparator `C`:
/// the sort key grows from each position to every later one. Since the
/// key's last component is the identifier, no two distinct records tie.
pub open spec fn sorted_under<C: OrderComparator>(s: Seq<Order>) -> bool {
    forall|p: int, q: int|
        0 <= p < q < s.len() ==> lex_lt(C::key(#[trigger] s[p]), C::key(#[trigger] s[q]))
}

/// A sequence of orders and an identifier map hold exactly the same
/// records: every listed record is in the map under its identifier, every
/// mapped identifier appears in the sequence, and no identifier appears
/// twice.
pub open spec fn records_match(s: Seq<Order>, m: Map<i32, Order>) -> bool {
    &&& forall|p: int|
        0 <= p < s.len() ==> m.dom().contains((#[trigger] s[p]).order_id) && m[s[p].order_id]
            == s[p]
    &&& forall|id: i32|
        #[trigger] m.dom().contains(id) ==> exists|p: int|
            0 <= p < s.len() && (#[trigger] s[p]).order_id == id
    &&& forall|p: int, q: int|
        0 <= p < q < s.len() ==> (#[trigger] s[p]).order_id != (#[trigger] s[q]).order_id
}

/// The flat position at which chunk `i` starts within the concatenation
/// of the chunks.
spec fn chunk_offset(cs: Seq<Seq<Order>>, i: int) -> int {
    cs.take(i).flatten().len() as int
}

/// The concatenation of a sequence of chunks splits around any one chunk.
proof fn lemma_flatten_decompose(cs: Seq<Seq<Order>>, i: int)
    requires
        0 <= i < cs.len(),
    ensures
        cs.flatten() == cs.take(i).flatten() + cs[i] + cs.skip(i + 1).flatten(),
{
    assert(cs =~= cs.take(i) + seq![cs[i]] + cs.skip(i + 1));
    lemma_flatten_concat(cs.take(i) + seq![cs[i]], cs.skip(i + 1));
    lemma_flatten_concat(cs.take(i), seq![cs[i]]);
    seq![cs[i]].lemma_flatten_singleton();
    assert(cs.flatten() =~= cs.take(i).flatten() + cs[i] + cs.skip(i + 1).flatten());
}

/// Chunk elements sit in the concatenation at their chunk's offset, and
/// the next chunk's offset lies one chunk-length further.
proof fn lemma_chunk_index(cs: Seq<Seq<Order>>, i: int, p: int)
    requires
        0 <= i < cs.len(),
        0 <= p < cs[i].len(),
    ensures
        0 <= chunk_offset(cs, i),
        chunk_offset(cs, i) + p < cs.flatten().len(),
        cs.flatten()[chunk_offset(cs, i) + p] == cs[i][p],
        chunk_offset(cs, i + 1) == chunk_offset(cs, i) + cs[i].len(),
        chunk_offset(cs, i + 1) <= cs.flatten().len(),
{
    lemma_flatten_decompose(cs, i);
    assert(cs.take(i + 1) =~= cs.take(i).push(cs[i]));
    cs.take(i).lemma_flatten_push(cs[i]);
    assert(cs.flatten()[chunk_offset(cs, i) + p] == cs[i][p]);
}

/// Chunk offsets grow with the chunk index.
proof fn lemma_offset_monotone(cs: Seq<Seq<Order>>, i: int, j: int)
    requires
        0 <= i <= j <= cs.len(),
    ensures
        chunk_offset(cs, i) <= chunk_offset(cs, j),
    decreases j - i,
{
    if i < j {
        assert(cs.take(i + 1) =~= cs.take(i).push(cs[i]));
        cs.take(i).lemma_flatten_push(cs[i]);
        lemma_offset_monotone(cs, i + 1, j);
    }
}

/// Every position in the concatenation falls inside some chunk's range.
proof fn lemma_flat_index_to_chunk(cs: Seq<Seq<Order>>, k: int)
    requires
        0 <= k < cs.flatten().len(),
    ensures
        exists|i: int|
            0 <= i < cs.len() && chunk_offset(cs, i) <= k < chunk_offset(cs, i) + (
            #[trigger] cs[i]).len(),
    decreases cs.len(),
{
    if cs.len() == 0 {
        assert(cs.flatten().len() == 0);
    } else {
        assert(cs.flatten() == cs[0] + cs.drop_first().flatten());
        assert(cs.take(0) =~= Seq::<Seq<Order>>::empty());
        assert(chunk_offset(cs, 0) == 0);
        if k < cs[0].len() {
            assert(0 <= 0 < cs.len() && chunk_offset(cs, 0) <= k < chunk_offset(cs, 0) + cs[0].len());
        } else {
            let rest = cs.drop_first();
            lemma_flat_index_to_chunk(rest, k - cs[0].len());
            let i = choose|i: int|
                0 <= i < rest.len() && chunk_offset(rest, i) <= k - cs[0].len() < chunk_offset(
                    rest,
                    i,
                ) + (#[trigger] rest[i]).len();
            assert(cs.take(i + 1) =~= seq![cs[0]] + rest.take(i));
            lemma_flatten_concat(seq![cs[0]], rest.take(i));
            seq![cs[0]].lemma_flatten_singleton();
            assert(chunk_offset(cs, i + 1) == cs[0].len() + chunk_offset(rest, i));
            assert(cs[i + 1] == rest[i]);
            assert(0 <= i + 1 < cs.len() && chunk_offset(cs, i + 1) <= k < chunk_offset(cs, i + 1)
                + cs[i + 1].len());
        }
    }
}

/// Any element of an earlier chunk, or an earlier element of the same
/// chunk, ranks strictly before a later one when the concatenation is
/// sorted.
proof fn lemma_chunk_elems_ordered<C: OrderComparator>(
    cs: Seq<Seq<Order>>,
    i: int,
    p: int,
    j: int,
    q: int,
)
    requires
        sorted_under::<C>(cs.flatten()),
        0 <= i <= j < cs.len(),
        0 <= p < cs[i].len(),
        0 <= q < cs[j].len(),
        i < j || p < q,
    ensures
        lex_lt(C::key(cs[i][p]), C::key(cs[j][q])),
{
    lemma_chunk_index(cs, i, p);
    lemma_chunk_index(cs, j, q);
    if i < j {
        lemma_offset_monotone(cs, i + 1, j);
    }
    assert(chunk_offset(cs, i) + p < chunk_offset(cs, j) + q);
}

/// What the two binary searches establish about a fresh record's insertion
/// position: everything strictly before it in the concatenation ranks
/// before the record, everything from it on ranks after.
proof fn lemma_insert_bounds<C: OrderComparator>(
    cs0: Seq<Seq<Order>>,
    m0: Map<i32, Order>,
    o: Order,
    idx: int,
    at: int,
    pos: int,
)
    requires
        sorted_under::<C>(cs0.flatten()),
        records_match(cs0.flatten(), m0),
        !m0.dom().contains(o.order_id),
        forall|i: int| 0 <= i < cs0.len() ==> (#[trigger] cs0[i]).len() >= 1,
        0 <= idx <= cs0.len(),
        0 < cs0.len(),
        at == (if idx == cs0.len() {
            idx - 1
        } else {
            idx
        }),
        forall|j: int| 0 <= j < idx ==> lex_lt(C::key((#[trigger] cs0[j]).last()), C::key(o)),
        idx < cs0.len() ==> !lex_lt(C::key(cs0[idx].last()), C::key(o)),
        0 <= pos <= cs0[at].len(),
        forall|q: int| 0 <= q < pos ==> lex_lt(C::key(#[trigger] cs0[at][q]), C::key(o)),
        forall|q: int|
            pos <= q < cs0[at].len() ==> !lex_lt(C::key(#[trigger] cs0[at][q]), C::key(o)),
    ensures
        0 <= chunk_offset(cs0, at) + pos <= cs0.flatten().len(),
        forall|j: int|
            0 <= j < chunk_offset(cs0, at) + pos ==> lex_lt(
                C::key(#[trigger] cs0.flatten()[j]),
                C::key(o),
            ),
        forall|j: int|
            chunk_offset(cs0, at) + pos <= j < cs0.flatten().len() ==> lex_lt(
                C::key(o),
                C::key(#[trigger] cs0.flatten()[j]),
            ),
{
    let flat0 = cs0.flatten();
    let kk = chunk_offset(cs0, at) + pos;
    lemma_chunk_index(cs0, at, cs0[at].len() - 1);
    assert(0 <= kk <= flat0.len());
    assert forall|j: int|
        0 <= j < flat0.len() implies (#[trigger] flat0[j]).order_id != o.order_id by {
        assert(m0.dom().contains(flat0[j].order_id));
    }
    assert forall|j: int| 0 <= j < kk implies lex_lt(C::key(#[trigger] flat0[j]), C::key(o)) by {
        lemma_flat_index_to_chunk(cs0, j);
        let i = choose|i: int|
            0 <= i < cs0.len() && chunk_offset(cs0, i) <= j < chunk_offset(cs0, i) + (
            #[trigger] cs0[i]).len();
        let p = j - chunk_offset(cs0, i);
        lemma_chunk_index(cs0, i, p);
        assert(flat0[j] == cs0[i][p]);
        if i < at {
            if p < cs0[i].len() - 1 {
                lemma_chunk_elems_ordered::<C>(cs0, i, p, i, cs0[i].len() - 1);
            }
            assert(lex_lt(C::key(cs0[i].last()), C::key(o)));
        } else if i == at {
            assert(p < pos);
        } else {
            lemma_offset_monotone(cs0, at + 1, i);
            assert(false);
        }
    }
    assert forall|j: int| kk <= j < flat0.len() implies lex_lt(
        C::key(o),
        C::key(#[trigger] flat0[j]),
    ) by {
        lemma_flat_index_to_chunk(cs0, j);
        let i = choose|i: int|
            0 <= i < cs0.len() && chunk_offset(cs0, i) <= j < chunk_offset(cs0, i) + (
            #[trigger] cs0[i]).len();
        let p = j - chunk_offset(cs0, i);
        lemma_chunk_index(cs0, i, p);
        assert(flat0[j] == cs0[i][p]);
        C::key_id(flat0[j]);
        C::key_id(o);
        if i < at {
            lemma_offset_monotone(cs0, i + 1, at);
            assert(false);
        } else if i == at {
            assert(p >= pos);
            assert(!lex_lt(C::key(cs0[at][p]), C::key(o)));
            assert(C::key(cs0[at][p]) != C::key(o));
        } else {
            assert(at == idx);
            assert(!lex_lt(C::key(cs0[at].last()), C::key(o)));
            C::key_id(cs0[at].last());
            assert(C::key(cs0[at].last()) != C::key(o));
            lemma_chunk_elems_ordered::<C>(cs0, at, cs0[at].len() - 1, i, p);
        }
    }
}

/// Replacing one chunk by that chunk with a record inserted inserts the
/// record at the matching position of the concatenation.
proof fn lemma_replace_one(cs0: Seq<Seq<Order>>, at: int, c_new: Seq<Order>, pos: int, o: Order)
    requires
        0 <= at < cs0.len(),
        0 <= pos <= cs0[at].len(),
        c_new == cs0[at].insert(pos, o),
    ensures
        (cs0.take(at) + seq![c_new] + cs0.skip(at + 1)).flatten() == cs0.flatten().insert(
            chunk_offset(cs0, at) + pos,
            o,
        ),
{
    let aa = cs0.take(at).flatten();
    let bb = cs0.skip(at + 1).flatten();
    let c_old = cs0[at];
    let flat0 = cs0.flatten();
    let kk = chunk_offset(cs0, at) + pos;
    let cs1 = cs0.take(at) + seq![c_new] + cs0.skip(at + 1);
    lemma_flatten_concat(cs0.take(at) + seq![c_new], cs0.skip(at + 1));
    lemma_flatten_concat(cs0.take(at), seq![c_new]);
    seq![c_new].lemma_flatten_singleton();
    lemma_flatten_decompose(cs0, at);
    assert(cs1.flatten() == aa + c_new + bb);
    assert(flat0 == aa + c_old + bb);
    c_old.insert_ensures(pos, o);
    flat0.insert_ensures(kk, o);
    assert(cs1.flatten().len() == flat0.len() + 1);
    assert forall|j: int| 0 <= j < cs1.flatten().len() implies cs1.flatten()[j] == flat0.insert(
        kk,
        o,
    )[j] by {
        if j < kk {
            if j < aa.len() {
                assert(cs1.flatten()[j] == aa[j]);
                assert(flat0[j] == aa[j]);
            } else {
                let p = j - aa.len();
                assert(cs1.flatten()[j] == c_new[p]);
                assert(c_new[p] == c_old[p]);
                assert(flat0[j] == c_old[p]);
            }
        } else if j == kk {
            assert(cs1.flatten()[j] == c_new[pos]);
        } else {
            if j < aa.len() + c_new.len() {
                let p = j - aa.len();
                assert(cs1.flatten()[j] == c_new[p]);
                assert(c_new[p] == c_old[p - 1]);
                assert(flat0[j - 1] == c_old[p - 1]);
            } else {
                assert(cs1.flatten()[j] == bb[j - aa.len() - c_new.len()]);
                assert(flat0[j - 1] == bb[j - 1 - aa.len() - c_old.len()]);
            }
        }
    }
    assert(cs1.flatten() =~= flat0.insert(kk, o));
}

/// Replacing one chunk by its two split halves, after a record was
/// inserted, also inserts the record at the matching position of the
/// concatenation.
proof fn lemma_replace_split(
    cs0: Seq<Seq<Order>>,
    at: int,
    c1: Seq<Order>,
    c2: Seq<Order>,
    pos: int,
    o: Order,
)
    requires
        0 <= at < cs0.len(),
        0 <= pos <= cs0[at].len(),
        c1 + c2 == cs0[at].insert(pos, o),
    ensures
        (cs0.take(at) + seq![c1] + seq![c2] + cs0.skip(at + 1)).flatten() == cs0.flatten().insert(
            chunk_offset(cs0, at) + pos,
            o,
        ),
{
    let c_new = cs0[at].insert(pos, o);
    lemma_replace_one(cs0, at, c_new, pos, o);
    let left = cs0.take(at);
    let right = cs0.skip(at + 1);
    lemma_flatten_concat(left + seq![c1] + seq![c2], right);
    lemma_flatten_concat(left + seq![c1], seq![c2]);
    lemma_flatten_concat(left, seq![c1]);
    seq![c1].lemma_flatten_singleton();
    seq![c2].lemma_flatten_singleton();
    lemma_flatten_concat(left + seq![c_new], right);
    lemma_flatten_concat(left, seq![c_new]);
    seq![c_new].lemma_flatten_singleton();
    assert((left + seq![c1] + seq![c2] + right).flatten() =~= (left + seq![c_new]
        + right).flatten());
}

/// Replacing one chunk by that chunk with one record removed removes the
/// record from the matching position of the concatenation.
proof fn lemma_replace_one_removed(cs0: Seq<Seq<Order>>, at: int, pos: int)
    requires
        0 <= at < cs0.len(),
        0 <= pos < cs0[at].len(),
    ensures
        (cs0.take(at) + seq![cs0[at].remove(pos)] + cs0.skip(at + 1)).flatten()
            == cs0.flatten().remove(chunk_offset(cs0, at) + pos),
{
    let aa = cs0.take(at).flatten();
    let bb = cs0.skip(at + 1).flatten();
    let c_old = cs0[at];
    let c_new = c_old.remove(pos);
    let flat0 = cs0.flatten();
    let kk = chunk_offset(cs0, at) + pos;
    let cs1 = cs0.take(at) + seq![c_new] + cs0.skip(at + 1);
    lemma_flatten_concat(cs0.take(at) + seq![c_new], cs0.skip(at + 1));
    lemma_flatten_concat(cs0.take(at), seq![c_new]);
    seq![c_new].lemma_flatten_singleton();
    lemma_flatten_decompose(cs0, at);
    assert(cs1.flatten() == aa + c_new + bb);
    assert(flat0 == aa + c_old + bb);
    c_old.remove_ensures(pos);
    flat0.remove_ensures(kk);
    assert(cs1.flatten().len() == flat0.len() - 1);
    assert forall|j: int| 0 <= j < cs1.flatten().len() implies cs1.flatten()[j] == flat0.remove(
        kk,
    )[j] by {
        if j < kk {
            if j < aa.len() {
                assert(cs1.flatten()[j] == aa[j]);
                assert(flat0[j] == aa[j]);
            } else {
                let p = j - aa.len();
                assert(cs1.flatten()[j] == c_new[p]);
                assert(c_new[p] == c_old[p]);
                assert(flat0[j] == c_old[p]);
            }
        } else {
            if j < aa.len() + c_new.len() {
                let p = j - aa.len();
                assert(cs1.flatten()[j] == c_new[p]);
                assert(c_new[p] == c_old[p + 1]);
                assert(flat0[j + 1] == c_old[p + 1]);
            } else {
                assert(cs1.flatten()[j] == bb[j - aa.len() - c_new.len()]);
                assert(flat0[j + 1] == bb[j + 1 - aa.len() - c_old.len()]);
            }
        }
    }
    assert(cs1.flatten() =~= flat0.remove(kk));
}

/// Dropping a chunk holding a single record removes that record from the
/// matching position of the concatenation; chunks are never left empty.
proof fn lemma_remove_chunk(cs0: Seq<Seq<Order>>, at: int)
    requires
        0 <= at < cs0.len(),
        cs0[at].len() == 1,
    ensures
        cs0.remove(at).flatten() == cs0.flatten().remove(chunk_offset(cs0, at)),
{
    let aa = cs0.take(at).flatten();
    let bb = cs0.skip(at + 1).flatten();
    let c_old = cs0[at];
    let flat0 = cs0.flatten();
    let kk = chunk_offset(cs0, at);
    assert(cs0.remove(at) =~= cs0.take(at) + cs0.skip(at + 1));
    lemma_flatten_concat(cs0.take(at), cs0.skip(at + 1));
    lemma_flatten_decompose(cs0, at);
    assert(cs0.remove(at).flatten() == aa + bb);
    assert(flat0 == aa + c_old + bb);
    flat0.remove_ensures(kk);
    assert forall|j: int| 0 <= j < aa.len() + bb.len() implies (aa + bb)[j] == flat0.remove(
        kk,
    )[j] by {
        if j < kk {
            assert((aa + bb)[j] == aa[j]);
            assert(flat0[j] == aa[j]);
        } else {
            assert((aa + bb)[j] == bb[j - aa.len()]);
            assert(flat0[j + 1] == bb[j + 1 - aa.len() - c_old.len()]);
        }
    }
    assert(aa + bb =~= flat0.remove(kk));
}

/// Dropping the first record of a sorted, matched sequence leaves a
/// sorted sequence matched with the map less that record's identifier.
proof fn lemma_match_drop_first<C: OrderComparator>(s: Seq<Order>, m: Map<i32, Order>)
    requires
        sorted_under::<C>(s),
        records_match(s, m),
        s.len() > 0,
    ensures
        sorted_under::<C>(s.drop_first()),
        records_match(s.drop_first(), m.remove(s[0].order_id)),
{
    let s1 = s.drop_first();
    let m1 = m.remove(s[0].order_id);
    assert forall|p1: int, q1: int| 0 <= p1 < q1 < s1.len() implies lex_lt(
        C::key(#[trigger] s1[p1]),
        C::key(#[trigger] s1[q1]),
    ) by {
        assert(s1[p1] == s[p1 + 1] && s1[q1] == s[q1 + 1]);
    }
    assert forall|p1: int|
        0 <= p1 < s1.len() implies m1.dom().contains((#[trigger] s1[p1]).order_id)
        && m1[s1[p1].order_id] == s1[p1] by {
        assert(s1[p1] == s[p1 + 1]);
        assert(s[p1 + 1].order_id != s[0].order_id);
    }
    assert forall|id: i32| #[trigger] m1.dom().contains(id) implies exists|p1: int|
        0 <= p1 < s1.len() && (#[trigger] s1[p1]).order_id == id by {
        let p2 = choose|p2: int| 0 <= p2 < s.len() && (#[trigger] s[p2]).order_id == id;
        assert(p2 != 0);
        assert(s1[p2 - 1].order_id == id);
    }
    assert forall|p1: int, q1: int|
        0 <= p1 < q1 < s1.len() implies (#[trigger] s1[p1]).order_id != (
    #[trigger] s1[q1]).order_id by {
        assert(s1[p1] == s[p1 + 1] && s1[q1] == s[q1 + 1]);
    }
}

/// Two sorted sequences that both match the same identifier map are the
/// same sequence: a map has exactly one sorted enumeration.
proof fn lemma_sorted_match_unique<C: OrderComparator>(
    s: Seq<Order>,
    t: Seq<Order>,
    m: Map<i32, Order>,
)
    requires
        sorted_under::<C>(s),
        sorted_under::<C>(t),
        records_match(s, m),
        records_match(t, m),
    ensures
        s == t,
    decreases s.len(),
{
    if s.len() == 0 {
        if t.len() > 0 {
            assert(m.dom().contains(t[0].order_id));
            let p = choose|p: int| 0 <= p < s.len() && (#[trigger] s[p]).order_id == t[0].order_id;
            assert(false);
        }
        assert(s =~= t);
    } else {
        assert(m.dom().contains(s[0].order_id));
        let q = choose|q: int| 0 <= q < t.len() && (#[trigger] t[q]).order_id == s[0].order_id;
        assert(t[q] == m[s[0].order_id]);
        assert(t[q] == s[0]);
        assert(m.dom().contains(t[0].order_id));
        let p = choose|p: int| 0 <= p < s.len() && (#[trigger] s[p]).order_id == t[0].order_id;
        assert(s[p] == t[0]);
        if q > 0 {
            assert(lex_lt(C::key(t[0]), C::key(t[q])));
            if p > 0 {
                assert(lex_lt(C::key(s[0]), C::key(s[p])));
                assert(false);
            } else {
                assert(false);
            }
        }
        assert(t[0] == s[0]);
        lemma_match_drop_first::<C>(s, m);
        lemma_match_drop_first::<C>(t, m);
        lemma_sorted_match_unique::<C>(s.drop_first(), t.drop_first(), m.remove(s[0].order_id));
        assert(s.len() == t.len());
        assert forall|j: int| 0 <= j < s.len() implies s[j] == t[j] by {
            if j > 0 {
                assert(s.drop_first()[j - 1] == s[j]);
                assert(t.drop_first()[j - 1] == t[j]);
            }
        }
        assert(s =~= t);
    }
}

/// Replaying an update as a removal followed by an insert of the
/// repriced record leaves the same identifier map, and hence, by
/// [`SortedOrders::lemma_view_determines_traversal`], an identical final
/// traversal.
pub proof fn lemma_update_is_remove_then_insert(m: Map<i32, Order>, order_id: i32, new_price: i32)
    requires
        m.dom().contains(order_id),
    ensures
        m.insert(order_id, m[order_id].spec_update(new_price)) == m.remove(order_id).insert(
            order_id,
            m[order_id].spec_update(new_price),
        ),
{
    assert(m.insert(order_id, m[order_id].spec_update(new_price)) =~= m.remove(
        order_id,
    ).insert(order_id, m[order_id].spec_update(new_price)));
}

/// Inserting a record at its sorted position keeps the traversal sorted
/// and keeps it matched with the map gaining that record.
proof fn lemma_insert_flat<C: OrderComparator>(
    flat0: Seq<Order>,
    m0: Map<i32, Order>,
    o: Order,
    k: int,
)
    requires
        sorted_under::<C>(flat0),
        records_match(flat0, m0),
        !m0.dom().contains(o.order_id),
        0 <= k <= flat0.len(),
        forall|j: int| 0 <= j < k ==> lex_lt(C::key(#[trigger] flat0[j]), C::key(o)),
        forall|j: int| k <= j < flat0.len() ==> lex_lt(C::key(o), C::key(#[trigger] flat0[j])),
    ensures
        sorted_under::<C>(flat0.insert(k, o)),
        records_match(flat0.insert(k, o), m0.insert(o.order_id, o)),
{
    let s = flat0.insert(k, o);
    let m = m0.insert(o.order_id, o);
    flat0.insert_ensures(k, o);
    assert forall|p: int, q: int| 0 <= p < q < s.len() implies lex_lt(
        C::key(#[trigger] s[p]),
        C::key(#[trigger] s[q]),
    ) by {
        if p < k && q < k {
        } else if p < k && q == k {
        } else if p == k {
            assert(s[q] == flat0[q - 1]);
        } else if q > k && p > k {
            assert(s[p] == flat0[p - 1] && s[q] == flat0[q - 1]);
        } else {
            assert(p < k && q > k);
            assert(s[p] == flat0[p] && s[q] == flat0[q - 1]);
        }
    }
    assert forall|p: int| 0 <= p < s.len() implies m.dom().contains((#[trigger] s[p]).order_id)
        && m[s[p].order_id] == s[p] by {
        if p < k {
            assert(s[p] == flat0[p]);
        } else if p == k {
            assert(s[p] == o);
        } else {
            assert(s[p] == flat0[p - 1]);
        }
    }
    assert forall|id: i32| #[trigger] m.dom().contains(id) implies exists|p: int|
        0 <= p < s.len() && (#[trigger] s[p]).order_id == id by {
        if id == o.order_id {
            assert(0 <= k < s.len() && s[k].order_id == id);
        } else {
            let p = choose|p: int| 0 <= p < flat0.len() && (#[trigger] flat0[p]).order_id == id;
            if p < k {
                assert(0 <= p < s.len() && s[p].order_id == id);
            } else {
                assert(0 <= p + 1 < s.len() && s[p + 1].order_id == id);
            }
        }
    }
    assert forall|p: int, q: int| 0 <= p < q < s.len() implies (#[trigger] s[p]).order_id != (
    #[trigger] s[q]).order_id by {
        if p == k {
            assert(s[q] == flat0[q - 1]);
            assert(m0.dom().contains(flat0[q - 1].order_id));
        } else if q == k {
            assert(s[p] == flat0[p]);
            assert(m0.dom().contains(flat0[p].order_id));
        } else {
            let p0 = if p < k {
                p
            } else {
                p - 1
            };
            let q0 = if q < k {
                q
            } else {
                q - 1
            };
            assert(s[p] == flat0[p0] && s[q] == flat0[q0]);
            assert(0 <= p0 < q0 < flat0.len());
        }
    }
}

/// Removing one record from the traversal keeps it sorted and keeps it
/// matched with the map losing that record's identifier.
proof fn lemma_remove_flat<C: OrderComparator>(flat0: Seq<Order>, m0: Map<i32, Order>, k: int)
    requires
        sorted_under::<C>(flat0),
        records_match(flat0, m0),
        0 <= k < flat0.len(),
    ensures
        sorted_under::<C>(flat0.remove(k)),
        records_match(flat0.remove(k), m0.remove(flat0[k].order_id)),
{
    let s = flat0.remove(k);
    let m = m0.remove(flat0[k].order_id);
    flat0.remove_ensures(k);
    assert forall|p: int, q: int| 0 <= p < q < s.len() implies lex_lt(
        C::key(#[trigger] s[p]),
        C::key(#[trigger] s[q]),
    ) by {
        let p0 = if p < k {
            p
        } else {
            p + 1
        };
        let q0 = if q < k {
            q
        } else {
            q + 1
        };
        assert(s[p] == flat0[p0] && s[q] == flat0[q0]);
    }
    assert forall|p: int| 0 <= p < s.len() implies m.dom().contains((#[trigger] s[p]).order_id)
        && m[s[p].order_id] == s[p] by {
        let p0 = if p < k {
            p
        } else {
            p + 1
        };
        assert(s[p] == flat0[p0]);
        assert(flat0[p0].order_id != flat0[k].order_id);
    }
    assert forall|id: i32| #[trigger] m.dom().contains(id) implies exists|p: int|
        0 <= p < s.len() && (#[trigger] s[p]).order_id == id by {
        let p0 = choose|p0: int| 0 <= p0 < flat0.len() && (#[trigger] flat0[p0]).order_id == id;
        assert(p0 != k);
        if p0 < k {
            assert(0 <= p0 < s.len() && s[p0].order_id == id);
        } else {
            assert(0 <= p0 - 1 < s.len() && s[p0 - 1].order_id == id);
        }
    }
    assert forall|p: int, q: int| 0 <= p < q < s.len() implies (#[trigger] s[p]).order_id != (
    #[trigger] s[q]).order_id by {
        let p0 = if p < k {
            p
        } else {
            p + 1
        };
        let q0 = if q < k {
            q
        } else {
            q + 1
        };
        assert(s[p] == flat0[p0] && s[q] == flat0[q0]);
        assert(0 <= p0 < q0 < flat0.len());
    }
}

/// Binary search within one sorted chunk for the first position whose
/// record does not rank before the probe.
fn chunk_lower_bound<C: OrderComparator>(chunk: &Vec<Order>, order: &Order) -> (pos: usize)
    requires
        sorted_under::<C>(chunk@),
    ensures
        pos <= chunk@.len(),
        forall|q: int| 0 <= q < pos ==> lex_lt(C::key(#[trigger] chunk@[q]), C::key(*order)),
        forall|q: int|
            pos <= q < chunk@.len() ==> !lex_lt(C::key(#[trigger] chunk@[q]), C::key(*order)),
{
    let mut lo: usize = 0;
    let mut hi: usize = chunk.len();
    while lo < hi
        invariant
            lo <= hi <= chunk@.len(),
            sorted_under::<C>(chunk@),
            forall|q: int| 0 <= q < lo ==> lex_lt(C::key(#[trigger] chunk@[q]), C::key(*order)),
            forall|q: int|
                hi <= q < chunk@.len() ==> !lex_lt(C::key(#[trigger] chunk@[q]), C::key(*order)),
        decreases hi - lo,
    {
        let mid = lo + (hi - lo) / 2;
        let probe = chunk[mid];
        match C::cmp(&probe, order) {
            core::cmp::Ordering::Less => {
                proof {
                    assert forall|q: int| 0 <= q < mid + 1 implies lex_lt(
                        C::key(#[trigger] chunk@[q]),
                        C::key(*order),
                    ) by {
                        if q < mid {
                            assert(lex_lt(C::key(chunk@[q]), C::key(chunk@[mid as int])));
                        }
                    }
                }
                lo = mid + 1;
            },
            _ => {
                proof {
                    assert forall|q: int| mid <= q < chunk@.len() implies !lex_lt(
                        C::key(#[trigger] chunk@[q]),
                        C::key(*order),
                    ) by {
                        if q > mid {
                            assert(lex_lt(C::key(chunk@[mid as int]), C::key(chunk@[q])));
                        }
                    }
                }
                hi = mid;
            },
        }
    }
    lo
}

/// The chunked, sorted order index for one side of the book.
///
/// The comparator type `C` fixes the priority order once per instance;
/// the same container logic serves both sides.
pub struct SortedOrders<C: OrderComparator> {
    /// The chunks, in priority order; each chunk is individually sorted
    /// and all of one chunk precedes all of the next.
    chunks: Vec<Vec<Order>>,
    /// Identifier-to-order map for constant-time lookup; always holds
    /// exactly the records of the chunks.
    map: fxhash::FxHashMap<i32, Order>,
    /// The bound on a chunk's size; splitting keeps every chunk at or
    /// under it.
    max_chunk_size: usize,
    _cmp: PhantomData<C>,
}

impl<C: OrderComparator> View for SortedOrders<C> {
    type V = Map<i32, Order>;

    /// The abstract state: the identifier-to-order map.
    closed spec fn view(&self) -> Map<i32, Order> {
        self.map@
    }
}

impl<C: OrderComparator> SortedOrders<C> {
    /// The chunks, each as a sequence of records.
    pub closed spec fn chunks_view(self) -> Seq<Seq<Order>> {
        Seq::new(self.chunks@.len() as nat, |i: int| self.chunks@[i]@)
    }

    /// The ordered traversal: the chunks concatenated in order.
    pub open spec fn seq_view(self) -> Seq<Order> {
        self.chunks_view().flatten()
    }

    /// The configured bound on a chunk's size.
    pub closed spec fn chunk_bound(self) -> int {
        self.max_chunk_size as int
    }

    /// The chunk shape and ordering invariant: a positive chunk bound,
    /// every chunk non-empty and within the bound, and the concatenation
    /// of the chunks strictly ascending under `C`.
    pub closed spec fn chunks_wf(self) -> bool {
        &&& 1 <= self.max_chunk_size
        &&& forall|i: int|
            0 <= i < self.chunks_view().len() ==> 1 <= (#[trigger] self.chunks_view()[i]).len()
                <= self.max_chunk_size
        &&& sorted_under::<C>(self.seq_view())
    }

    /// Well-formed: the chunk invariant holds and the identifier map and
    /// the chunks hold exactly the same records.
    pub closed spec fn wf(self) -> bool {
        &&& self.chunks_wf()
        &&& records_match(self.seq_view(), self.map@)
        &&& self.map@.dom().finite()
    }

    /// An empty index with the default chunk bound.
    pub fn new() -> (s: Self)
        ensures
            s.wf(),
            s@ == id_map_empty(),
            s.seq_view() == Seq::<Order>::empty(),
            s.chunk_bound() == DEFAULT_MAX_CHUNK_SIZE as int,
    {
        Self::with_max_chunk_size(DEFAULT_MAX_CHUNK_SIZE)
    }

    /// An empty index whose chunks are kept at or under the given bound.
    pub fn with_max_chunk_size(max_chunk_size: usize) -> (s: Self)
        requires
            1 <= max_chunk_size,
        ensures
            s.wf(),
            s@ == id_map_empty(),
            s.seq_view() == Seq::<Order>::empty(),
            s.chunk_bound() == max_chunk_size as int,
    {
        let s = SortedOrders {
            chunks: Vec::new(),
            map: id_map_new(),
            max_chunk_size,
            _cmp: PhantomData,
        };
        proof {
            assert(s.chunks_view() =~= Seq::<Seq<Order>>::empty());
            assert(s.seq_view() =~= Seq::<Order>::empty());
        }
        s
    }

    /// True exactly when the index holds no records; the identifier map
    /// is empty if and only if there are no chunks.
    pub fn is_empty(&self) -> (r: bool)
        requires
            self.wf(),
        ensures
            r <==> self@.dom() == Set::<i32>::empty(),
            r <==> self.seq_view().len() == 0,
    {
        let r = id_map_is_empty(&self.map);
        proof {
            if self.seq_view().len() == 0 {
                assert forall|id: i32| !self@.dom().contains(id) by {
                    if self@.dom().contains(id) {
                        let p = choose|p: int|
                            0 <= p < self.seq_view().len() && self.seq_view()[p].order_id == id;
                        assert(false);
                    }
                }
                assert(self@.dom() =~= Set::<i32>::empty());
            } else {
                assert(self@.dom().contains(self.seq_view()[0].order_id));
                assert(self@.dom() != Set::<i32>::empty());
            }
        }
        r
    }

    /// The number of records in the index.
    pub fn len(&self) -> (r: usize)
        requires
            self.wf(),
        ensures
            r == self@.dom().len(),
            r == self.seq_view().len(),
    {
        let r = id_map_len(&self.map);
        proof {
            self.lemma_count();
        }
        r
    }

    /// The number of chunks currently backing the index.
    pub fn chunk_count(&self) -> (r: usize)
        ensures
            r == self.chunks_view().len(),
    {
        self.chunks.len()
    }

    /// For all sequences of mutations, the ordered traversal of a
    /// well-formed index is strictly ascending under the active
    /// comparator: no two distinct records ever compare equal, since the
    /// identifier is the final tie-break.
    pub proof fn lemma_traversal_sorted(self)
        requires
            self.wf(),
        ensures
            sorted_under::<C>(self.seq_view()),
    {
    }

    /// The ordered traversal and the identifier map always hold exactly
    /// the same records.
    pub proof fn lemma_traversal_matches_view(self)
        requires
            self.wf(),
        ensures
            records_match(self.seq_view(), self@),
    {
    }

    /// An identifier absent from the map appears nowhere in the
    /// traversal: once removed, a record is gone from the ordered output.
    pub proof fn lemma_absent_not_in_traversal(self, order_id: i32)
        requires
            self.wf(),
            !self@.dom().contains(order_id),
        ensures
            forall|p: int|
                0 <= p < self.seq_view().len() ==> (#[trigger] self.seq_view()[p]).order_id
                    != order_id,
    {
    }

    /// Two well-formed indexes with the same identifier map produce the
    /// same ordered traversal: the traversal is the unique sorted
    /// enumeration of the map's records. With
    /// [`lemma_update_is_remove_then_insert`], replaying a history with
    /// each update collapsed into a removal and an insert therefore ends
    /// in an identical traversal.
    pub proof fn lemma_view_determines_traversal(a: Self, b: Self)
        requires
            a.wf(),
            b.wf(),
            a@ == b@,
        ensures
            a.seq_view() == b.seq_view(),
    {
        lemma_sorted_match_unique::<C>(a.seq_view(), b.seq_view(), a@);
    }

    /// The chunk invariant: after any completed operation every chunk is
    /// non-empty and at most the configured bound, every chunk is
    /// individually sorted, and concatenating the chunks in order yields
    /// the globally sorted traversal.
    pub proof fn lemma_chunk_invariant(self)
        requires
            self.wf(),
        ensures
            forall|i: int|
                0 <= i < self.chunks_view().len() ==> 1 <= (#[trigger] self.chunks_view()[i]).len()
                    <= self.chunk_bound(),
            forall|i: int|
                0 <= i < self.chunks_view().len() ==> sorted_under::<C>(
                    #[trigger] self.chunks_view()[i],
                ),
            sorted_under::<C>(self.seq_view()),
            self.seq_view() == self.chunks_view().flatten(),
    {
        let cs = self.chunks_view();
        assert forall|i: int| 0 <= i < cs.len() implies sorted_under::<C>(#[trigger] cs[i]) by {
            assert forall|p: int, q: int| 0 <= p < q < cs[i].len() implies lex_lt(
                C::key(cs[i][p]),
                C::key(cs[i][q]),
            ) by {
                lemma_chunk_elems_ordered::<C>(cs, i, p, i, q);
            }
        }
    }

    /// The index holds as many records as its map has identifiers: the
    /// traversal lists each mapped record exactly once.
    proof fn lemma_count(self)
        requires
            self.wf(),
        ensures
            self@.dom().len() == self.seq_view().len(),
    {
        let s = self.seq_view();
        let ids = s.map_values(|o: Order| o.order_id);
        assert(ids.no_duplicates());
        assert forall|id: i32| self@.dom().contains(id) implies ids.to_set().contains(id) by {
            let p = choose|p: int| 0 <= p < s.len() && s[p].order_id == id;
            assert(ids[p] == id);
        }
        assert forall|id: i32| ids.to_set().contains(id) implies self@.dom().contains(id) by {
            let p = choose|p: int| 0 <= p < ids.len() && ids[p] == id;
            assert(s[p].order_id == id);
        }
        assert(ids.to_set() =~= self@.dom());
        ids.unique_seq_to_set();
    }

    /// Binary search over the chunks, probing each chunk's last record:
    /// the first chunk whose last record does not rank before the probe,
    /// or the number of chunks if every chunk's last record does.
    fn find_chunk(&self, order: &Order) -> (idx: usize)
        requires
            self.chunks_wf(),
        ensures
            idx <= self.chunks_view().len(),
            forall|j: int|
                0 <= j < idx ==> lex_lt(
                    C::key((#[trigger] self.chunks_view()[j]).last()),
                    C::key(*order),
                ),
            idx < self.chunks_view().len() ==> !lex_lt(
                C::key(self.chunks_view()[idx as int].last()),
                C::key(*order),
            ),
    {
        let ghost cs = self.chunks_view();
        let mut lo: usize = 0;
        let mut hi: usize = self.chunks.len();
        while lo < hi
            invariant
                lo <= hi <= cs.len(),
                cs == self.chunks_view(),
                self.chunks_wf(),
                cs.len() == self.chunks@.len(),
                forall|j: int|
                    0 <= j < lo ==> lex_lt(C::key((#[trigger] cs[j]).last()), C::key(*order)),
                hi < cs.len() ==> !lex_lt(C::key(cs[hi as int].last()), C::key(*order)),
            decreases hi - lo,
        {
            let mid = lo + (hi - lo) / 2;
            let c = &self.chunks[mid];
            proof {
                assert(c@ == cs[mid as int]);
                assert(c@.len() >= 1);
            }
            let probe = c[c.len() - 1];
            match C::cmp(&probe, order) {
                core::cmp::Ordering::Less => {
                    proof {
                        assert forall|j: int| 0 <= j < mid + 1 implies lex_lt(
                            C::key((#[trigger] cs[j]).last()),
                            C::key(*order),
                        ) by {
                            if j < mid {
                                lemma_chunk_elems_ordered::<C>(
                                    cs,
                                    j,
                                    cs[j].len() - 1,
                                    mid as int,
                                    cs[mid as int].len() - 1,
                                );
                            }
                        }
                    }
                    lo = mid + 1;
                },
                _ => {
                    hi = mid;
                },
            }
        }
        lo
    }

    /// Insert a new order: register it in the identifier map, locate its
    /// chunk, place it at its sorted position, and split the chunk at its
    /// midpoint if it has outgrown the bound.
    ///
    /// The identifier must not already be present: identifiers are
    /// assigned uniquely, never reused, and a duplicate insert would
    /// corrupt the index, so it is ruled out rather than tolerated.
    #[verifier::rlimit(60)]
    pub fn insert(&mut self, order: &Order)
        requires
            old(self).wf(),
            !old(self)@.dom().contains(order.order_id),
        ensures
            final(self).wf(),
            final(self)@ == old(self)@.insert(order.order_id, *order),
            final(self).chunk_bound() == old(self).chunk_bound(),
    {
        let ghost m0 = self.map@;
        let ghost cs0 = self.chunks_view();
        let ghost flat0 = self.seq_view();

        id_map_insert(&mut self.map, order.order_id, *order);
        proof {
            assert(self.chunks_view() == cs0);
        }
        if self.chunks.len() == 0 {
            let mut chunk: Vec<Order> = Vec::new();
            chunk.push(*order);
            let ghost c_new = chunk@;
            self.chunks.push(chunk);
            proof {
                assert(c_new =~= seq![*order]);
                assert(self.chunks_view() =~= seq![c_new]);
                seq![c_new].lemma_flatten_singleton();
                assert(self.seq_view() == seq![*order]);
                assert forall|id: i32| #[trigger] self.map@.dom().contains(id) implies exists|
                    p: int,
                |
                    0 <= p < self.seq_view().len() && (#[trigger] self.seq_view()[p]).order_id
                        == id by {
                    if id != order.order_id {
                        assert(m0.dom().contains(id));
                        let p = choose|p: int|
                            0 <= p < flat0.len() && (#[trigger] flat0[p]).order_id == id;
                        assert(false);
                    } else {
                        assert(self.seq_view()[0].order_id == id);
                    }
                }
            }
        } else {
            let idx = self.find_chunk(order);
            let at: usize = if idx == self.chunks.len() {
                idx - 1
            } else {
                idx
            };
            proof {
                assert forall|p: int, q: int|
                    0 <= p < q < cs0[at as int].len() implies lex_lt(
                    C::key(cs0[at as int][p]),
                    C::key(cs0[at as int][q]),
                ) by {
                    lemma_chunk_elems_ordered::<C>(cs0, at as int, p, at as int, q);
                }
                assert(sorted_under::<C>(cs0[at as int]));
            }
            let mut chunk = self.chunks.remove(at);
            proof {
                assert(chunk@ == cs0[at as int]);
            }
            let pos = chunk_lower_bound::<C>(&chunk, order);
            let ghost c_old = chunk@;
            let ghost kk = chunk_offset(cs0, at as int) + pos as int;
            proof {
                lemma_insert_bounds::<C>(cs0, m0, *order, idx as int, at as int, pos as int);
            }
            chunk.insert(pos, *order);
            let ghost c_new = chunk@;
            proof {
                c_old.insert_ensures(pos as int, *order);
                lemma_insert_flat::<C>(flat0, m0, *order, kk);
            }
            if chunk.len() > self.max_chunk_size {
                let mid = chunk.len() / 2;
                let sibling = chunk.split_off(mid);
                let ghost c1 = chunk@;
                let ghost c2 = sibling@;
                self.chunks.insert(at, sibling);
                self.chunks.insert(at, chunk);
                proof {
                    let at_i = at as int;
                    assert(c1 + c2 =~= c_new);
                    assert(self.chunks_view() =~= cs0.take(at_i) + seq![c1] + seq![c2] + cs0.skip(
                        at_i + 1,
                    ));
                    lemma_replace_split(cs0, at_i, c1, c2, pos as int, *order);
                    assert(self.seq_view() == flat0.insert(kk, *order));
                    assert forall|i: int|
                        0 <= i < self.chunks_view().len() implies 1 <= (
                    #[trigger] self.chunks_view()[i]).len() <= self.max_chunk_size by {
                        if i < at_i {
                            assert(self.chunks_view()[i] == cs0[i]);
                        } else if i > at_i + 1 {
                            assert(self.chunks_view()[i] == cs0[i - 1]);
                        }
                    }
                }
            } else {
                self.chunks.insert(at, chunk);
                proof {
                    let at_i = at as int;
                    assert(self.chunks_view() =~= cs0.take(at_i) + seq![c_new] + cs0.skip(
                        at_i + 1,
                    ));
                    lemma_replace_one(cs0, at_i, c_new, pos as int, *order);
                    assert(self.seq_view() == flat0.insert(kk, *order));
                    assert forall|i: int|
                        0 <= i < self.chunks_view().len() implies 1 <= (
                    #[trigger] self.chunks_view()[i]).len() <= self.max_chunk_size by {
                        if i < at_i {
                            assert(self.chunks_view()[i] == cs0[i]);
                        } else if i > at_i {
                            assert(self.chunks_view()[i] == cs0[i]);
                        }
                    }
                }
            }
        }
    }

    /// Remove the order with the given identifier and hand it back, so
    /// that callers such as update can reuse its fields. An absent
    /// identifier is a silently tolerated no-op, not an error: cancelling
    /// an already-cancelled or unknown order is a normal event. A chunk
    /// left empty by the removal is dropped from the chunk sequence.
    #[verifier::rlimit(60)]
    pub fn remove_by_id(&mut self, order_id: i32) -> (r: Option<Order>)
        requires
            old(self).wf(),
        ensures
            final(self).wf(),
            old(self)@.dom().contains(order_id) ==> r == Some(old(self)@[order_id])
                && final(self)@ == old(self)@.remove(order_id),
            !old(self)@.dom().contains(order_id) ==> r == None::<Order>
                && final(self)@ == old(self)@
                && final(self).seq_view() == old(self).seq_view(),
            final(self).chunk_bound() == old(self).chunk_bound(),
    {
        let ghost m0 = self.map@;
        let ghost cs0 = self.chunks_view();
        let ghost flat0 = self.seq_view();
        let removed = id_map_remove(&mut self.map, order_id);
        proof {
            assert(self.chunks_view() == cs0);
        }
        match removed {
            None => None,
            Some(order) => {
                let ghost p_flat = choose|p: int|
                    0 <= p < flat0.len() && (#[trigger] flat0[p]).order_id == order_id;
                proof {
                    assert(flat0[p_flat] == order);
                }
                let idx = self.find_chunk(&order);
                proof {
                    lemma_flat_index_to_chunk(cs0, p_flat);
                    let i = choose|i: int|
                        0 <= i < cs0.len() && chunk_offset(cs0, i) <= p_flat < chunk_offset(
                            cs0,
                            i,
                        ) + (#[trigger] cs0[i]).len();
                    let p = p_flat - chunk_offset(cs0, i);
                    lemma_chunk_index(cs0, i, p);
                    assert(cs0[i][p] == order);
                    if i < idx {
                        if p < cs0[i].len() - 1 {
                            lemma_chunk_elems_ordered::<C>(cs0, i, p, i, cs0[i].len() - 1);
                        }
                        assert(lex_lt(C::key(cs0[i].last()), C::key(order)));
                        assert(false);
                    } else if i > idx {
                        lemma_chunk_elems_ordered::<C>(cs0, idx as int, cs0[idx as int].len() - 1, i, p);
                        assert(false);
                    }
                    assert(i == idx as int);
                    assert forall|p2: int, q2: int|
                        0 <= p2 < q2 < cs0[idx as int].len() implies lex_lt(
                        C::key(cs0[idx as int][p2]),
                        C::key(cs0[idx as int][q2]),
                    ) by {
                        lemma_chunk_elems_ordered::<C>(cs0, idx as int, p2, idx as int, q2);
                    }
                    assert(sorted_under::<C>(cs0[idx as int]));
                }
                let at = idx;
                let mut chunk = self.chunks.remove(at);
                proof {
                    assert(chunk@ == cs0[at as int]);
                }
                let pos = chunk_lower_bound::<C>(&chunk, &order);
                let ghost c_old = chunk@;
                let ghost pp = p_flat - chunk_offset(cs0, at as int);
                proof {
                    assert(c_old[pp] == order);
                    if pp < pos as int {
                        assert(lex_lt(C::key(c_old[pp]), C::key(order)));
                        assert(false);
                    }
                    if (pos as int) < pp {
                        lemma_chunk_elems_ordered::<C>(cs0, at as int, pos as int, at as int, pp);
                        assert(!lex_lt(C::key(c_old[pos as int]), C::key(order)));
                        assert(false);
                    }
                    assert(pos as int == pp);
                    lemma_remove_flat::<C>(flat0, m0, p_flat);
                }
                let _removed_record = chunk.remove(pos);
                if chunk.len() > 0 {
                    self.chunks.insert(at, chunk);
                    proof {
                        let at_i = at as int;
                        assert(self.chunks_view() =~= cs0.take(at_i) + seq![c_old.remove(pp)]
                            + cs0.skip(at_i + 1));
                        lemma_replace_one_removed(cs0, at_i, pp);
                        assert(self.seq_view() == flat0.remove(p_flat));
                        assert forall|i: int|
                            0 <= i < self.chunks_view().len() implies 1 <= (
                        #[trigger] self.chunks_view()[i]).len() <= self.max_chunk_size by {
                            if i < at_i {
                                assert(self.chunks_view()[i] == cs0[i]);
                            } else if i > at_i {
                                assert(self.chunks_view()[i] == cs0[i]);
                            }
                        }
                    }
                } else {
                    proof {
                        let at_i = at as int;
                        assert(c_old.len() == 1);
                        assert(self.chunks_view() =~= cs0.remove(at_i));
                        lemma_remove_chunk(cs0, at_i);
                        assert(self.seq_view() == flat0.remove(p_flat));
                        assert forall|i: int|
                            0 <= i < self.chunks_view().len() implies 1 <= (
                        #[trigger] self.chunks_view()[i]).len() <= self.max_chunk_size by {
                            if i < at_i {
                                assert(self.chunks_view()[i] == cs0[i]);
                            } else {
                                assert(self.chunks_view()[i] == cs0[i + 1]);
                            }
                        }
                    }
                }
                Some(order)
            },
        }
    }

    /// Change the price of the order with the given identifier by
    /// removing it and re-inserting it with the new price, which
    /// re-establishes its sorted position without any in-place reorder
    /// path. An absent identifier is a no-op, not an error.
    pub fn update(&mut self, order_id: i32, new_price: i32) -> (r: Option<()>)
        requires
            old(self).wf(),
        ensures
            final(self).wf(),
            old(self)@.dom().contains(order_id) ==> r == Some(())
                && final(self)@ == old(self)@.insert(order_id, old(self)@[order_id].spec_update(new_price)),
            !old(self)@.dom().contains(order_id) ==> r == None::<()>
                && final(self)@ == old(self)@
                && final(self).seq_view() == old(self).seq_view(),
            final(self).chunk_bound() == old(self).chunk_bound(),
    {
        let ghost m0 = self.map@;
        let ghost flat0 = self.seq_view();
        proof {
            if m0.dom().contains(order_id) {
                let p = choose|p: int|
                    0 <= p < flat0.len() && (#[trigger] flat0[p]).order_id == order_id;
                assert(m0[order_id].order_id == order_id);
            }
        }
        match self.remove_by_id(order_id) {
            Some(order) => {
                let updated = order.update(new_price);
                self.insert(&updated);
                proof {
                    assert(self.map@ =~= m0.insert(
                        order_id,
                        m0[order_id].spec_update(new_price),
                    ));
                }
                Some(())
            },
            None => None,
        }
    }

    /// Produce the full book in priority order, chunk by chunk.
    pub fn ordered_traversal(&self) -> (r: Vec<Order>)
        ensures
            r@ == self.seq_view(),
    {
        let ghost cs = self.chunks_view();
        let mut r: Vec<Order> = Vec::new();
        proof {
            assert(cs.take(0) =~= Seq::<Seq<Order>>::empty());
        }
        let mut i: usize = 0;
        while i < self.chunks.len()
            invariant
                i <= self.chunks.len(),
                cs == self.chunks_view(),
                r@ == cs.take(i as int).flatten(),
            decreases self.chunks.len() - i,
        {
            let chunk = &self.chunks[i];
            let ghost r_before = r@;
            let mut j: usize = 0;
            proof {
                assert(chunk@.take(0) =~= Seq::<Order>::empty());
                assert(r@ =~= r_before + chunk@.take(0));
            }
            while j < chunk.len()
                invariant
                    j <= chunk.len(),
                    r@ == r_before + chunk@.take(j as int),
                decreases chunk.len() - j,
            {
                r.push(chunk[j]);
                proof {
                    assert(chunk@.take(j + 1) =~= chunk@.take(j as int).push(chunk@[j as int]));
                    assert(r@ =~= r_before + chunk@.take(j + 1));
                }
                j = j + 1;
            }
            proof {
                assert(chunk@.take(chunk@.len() as int) =~= chunk@);
                assert(cs.take(i + 1) =~= cs.take(i as int).push(cs[i as int]));
                cs.take(i as int).lemma_flatten_push(cs[i as int]);
                assert(r@ =~= cs.take(i + 1).flatten());
            }
            i = i + 1;
        }
        proof {
            assert(cs.take(cs.len() as int) =~= cs);
        }
        r
    }
}

} // verus!
