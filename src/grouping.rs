//! Samples sorted by channel and gathered into one collection per channel.
use vstd::prelude::*;
use crate::catalogue::{describe, keyed_by_id, Catalogue};
use crate::descriptor::{CanId, CanIdView};
use crate::messages::{msgs_view, CanMsg, CanMsgView};

verus! {

broadcast use vstd::seq_lib::group_seq_properties;

/// The samples of one channel, in the order they were read, with its descriptor.
#[derive(Debug)]
pub struct CanMsgCollection {
    pub can_id: CanId,
    pub collection: Vec<CanMsg>,
}

pub struct CollectionView {
    pub can_id: CanIdView,
    pub collection: Seq<CanMsgView>,
}

impl View for CanMsgCollection {
    type V = CollectionView;

    open spec fn view(&self) -> CollectionView {
        CollectionView { can_id: self.can_id@, collection: msgs_view(self.collection@) }
    }
}

impl CanMsgCollection {
    /// A collection that holds `can_msg` alone.
    pub fn new(can_id: CanId, can_msg: CanMsg) -> (r: CanMsgCollection)
        ensures
            r@ == (CollectionView { can_id: can_id@, collection: seq![can_msg@] }),
    {
        let mut collection: Vec<CanMsg> = Vec::new();
        collection.push(can_msg);
        proof {
            assert(msgs_view(collection@) =~= seq![can_msg@]);
        }
        CanMsgCollection { can_id, collection }
    }
}

pub open spec fn collections_view(v: Seq<CanMsgCollection>) -> Seq<CollectionView> {
    v.map_values(|c: CanMsgCollection| c@)
}

/// The channel id of a collection.
pub open spec fn coll_id(c: CollectionView) -> u32 {
    c.can_id.hex_id
}

pub open spec fn has_id(k: u32) -> spec_fn(CanMsgView) -> bool {
    |m: CanMsgView| m.hex_id == k
}

/// The samples are in non-decreasing order of channel id.
pub open spec fn sorted_by_id(s: Seq<CanMsgView>) -> bool {
    forall|i: int, j: int| 0 <= i < j < s.len() ==> s[i].hex_id <= s[j].hex_id
}

/// The collections are in strictly increasing order of channel id.
pub open spec fn ids_increasing(r: Seq<CollectionView>) -> bool {
    forall|i: int, j: int| 0 <= i < j < r.len() ==> coll_id(r[i]) < coll_id(r[j])
}

/// Every collection is non-empty and holds samples of its own channel only.
pub open spec fn homogeneous(r: Seq<CollectionView>) -> bool {
    forall|i: int|
        0 <= i < r.len() ==> (#[trigger] r[i]).collection.len() > 0 && forall|j: int|
            0 <= j < r[i].collection.len() ==> #[trigger] r[i].collection[j].hex_id == coll_id(r[i])
}

/// The samples of all collections, one collection after the other.
pub open spec fn flatten(r: Seq<CollectionView>) -> Seq<CanMsgView>
    decreases r.len(),
{
    if r.len() == 0 {
        seq![]
    } else {
        flatten(r.drop_last()) + r.last().collection
    }
}

/// How many samples the collections hold together.
pub open spec fn total_samples(r: Seq<CollectionView>) -> nat
    decreases r.len(),
{
    if r.len() == 0 {
        0
    } else {
        total_samples(r.drop_last()) + r.last().collection.len()
    }
}

/// The walk over samples sorted by id: a sample opens a new collection when its
/// id differs from that of the open one, and joins the open one otherwise.
pub open spec fn runs(s: Seq<CanMsgView>, cat: Map<u32, CanIdView>) -> Seq<CollectionView>
    decreases s.len(),
{
    if s.len() == 0 {
        seq![]
    } else {
        let g = runs(s.drop_last(), cat);
        let m = s.last();
        if g.len() > 0 && coll_id(g.last()) == m.hex_id {
            g.update(
                g.len() - 1,
                CollectionView { can_id: g.last().can_id, collection: g.last().collection.push(m) },
            )
        } else {
            g.push(CollectionView { can_id: describe(cat, m.hex_id), collection: seq![m] })
        }
    }
}

/// `r` is the grouping of the samples `s` by channel: one collection per id
/// that occurs in `s`, in increasing order of id, each holding the samples of
/// its id in the order of `s` and the catalogue's descriptor of its id.
pub open spec fn is_grouping(s: Seq<CanMsgView>, r: Seq<CollectionView>, cat: Map<
    u32,
    CanIdView,
>) -> bool {
    &&& ids_increasing(r)
    &&& forall|i: int|
        0 <= i < r.len() ==> {
            &&& #[trigger] r[i].collection == s.filter(has_id(coll_id(r[i])))
            &&& r[i].collection.len() > 0
            &&& r[i].can_id == describe(cat, coll_id(r[i]))
        }
    &&& forall|j: int|
        0 <= j < s.len() ==> exists|i: int| 0 <= i < r.len() && coll_id(r[i]) == #[trigger] s[j].hex_id
}

pub proof fn lemma_runs(s: Seq<CanMsgView>, cat: Map<u32, CanIdView>)
    requires
        sorted_by_id(s),
        keyed_by_id(cat),
    ensures
        ids_increasing(runs(s, cat)),
        homogeneous(runs(s, cat)),
        flatten(runs(s, cat)) == s,
        forall|i: int|
            0 <= i < runs(s, cat).len() ==> (#[trigger] runs(s, cat)[i]).can_id == describe(
                cat,
                coll_id(runs(s, cat)[i]),
            ),
        s.len() > 0 ==> runs(s, cat).len() > 0 && coll_id(runs(s, cat).last()) == s.last().hex_id,
    decreases s.len(),
{
    if s.len() > 0 {
        let s0 = s.drop_last();
        lemma_runs(s0, cat);
        let g = runs(s0, cat);
        let m = s.last();
        let r = runs(s, cat);
        if g.len() > 0 && coll_id(g.last()) == m.hex_id {
            assert(r.drop_last() =~= g.drop_last());
            assert(flatten(g) == flatten(g.drop_last()) + g.last().collection);
            assert(flatten(r) == flatten(r.drop_last()) + r.last().collection);
            assert(r.last().collection == g.last().collection.push(m));
            assert(flatten(g.drop_last()) + g.last().collection.push(m) =~= (flatten(g.drop_last())
                + g.last().collection).push(m));
            assert(s0.push(m) =~= s);
            assert(flatten(r) =~= s);
            assert(homogeneous(r)) by {
                assert forall|i: int| 0 <= i < r.len() implies (#[trigger] r[i]).collection.len() > 0
                    && forall|j: int|
                    0 <= j < r[i].collection.len() ==> #[trigger] r[i].collection[j].hex_id
                        == coll_id(r[i]) by {
                    if i < r.len() - 1 {
                        assert(r[i] == g[i]);
                    } else {
                        assert forall|j: int| 0 <= j < r[i].collection.len() implies #[trigger] r[i].collection[j].hex_id
                            == coll_id(r[i]) by {
                            if j < r[i].collection.len() - 1 {
                                assert(r[i].collection[j] == g.last().collection[j]);
                            }
                        }
                    }
                }
            }
        } else {
            assert(r.drop_last() =~= g);
            if g.len() > 0 {
                assert(s0.last() == s[s.len() - 2]);
            }
            assert(flatten(r) =~= s);
        }
    }
}

/// Keeping the samples of one channel from a concatenation of homogeneous
/// collections with distinct ids yields that channel's collection, or nothing.
pub proof fn lemma_flatten_filter(r: Seq<CollectionView>, k: u32)
    requires
        homogeneous(r),
        ids_increasing(r),
    ensures
        forall|i: int|
            0 <= i < r.len() && coll_id(r[i]) == k ==> flatten(r).filter(has_id(k)) == #[trigger] r[i].collection,
        (forall|i: int| 0 <= i < r.len() ==> coll_id(#[trigger] r[i]) != k) ==> flatten(r).filter(
            has_id(k),
        ) == Seq::<CanMsgView>::empty(),
    decreases r.len(),
{
    if r.len() > 0 {
        let r0 = r.drop_last();
        assert(homogeneous(r0)) by {
            assert forall|i: int| 0 <= i < r0.len() implies (#[trigger] r0[i]).collection.len() > 0
                && forall|j: int|
                0 <= j < r0[i].collection.len() ==> #[trigger] r0[i].collection[j].hex_id == coll_id(
                    r0[i],
                ) by {
                assert(r0[i] == r[i]);
            }
        }
        lemma_flatten_filter(r0, k);
        let last = r.last().collection;
        Seq::filter_distributes_over_add(flatten(r0), last, has_id(k));
        if coll_id(r.last()) == k {
            lemma_filter_all(last, k);
            assert forall|i: int| 0 <= i < r0.len() implies coll_id(#[trigger] r0[i]) != k by {
                assert(r0[i] == r[i]);
            }
            assert(flatten(r).filter(has_id(k)) =~= last);
        } else {
            lemma_filter_none(last, k);
            assert(flatten(r).filter(has_id(k)) =~= flatten(r0).filter(has_id(k)));
            assert forall|i: int|
                0 <= i < r.len() && coll_id(r[i]) == k implies flatten(r).filter(has_id(k))
                    == #[trigger] r[i].collection by {
                assert(r0[i] == r[i]);
            }
            assert((forall|i: int| 0 <= i < r.len() ==> coll_id(#[trigger] r[i]) != k) ==> (forall|
                i: int,
            | 0 <= i < r0.len() ==> coll_id(#[trigger] r0[i]) != k)) by {
                if forall|i: int| 0 <= i < r.len() ==> coll_id(#[trigger] r[i]) != k {
                    assert forall|i: int| 0 <= i < r0.len() implies coll_id(#[trigger] r0[i]) != k by {
                        assert(r0[i] == r[i]);
                    }
                }
            }
        }
    }
}

pub proof fn lemma_filter_all(s: Seq<CanMsgView>, k: u32)
    requires
        forall|j: int| 0 <= j < s.len() ==> (#[trigger] s[j]).hex_id == k,
    ensures
        s.filter(has_id(k)) == s,
    decreases s.len(),
{
    reveal(Seq::filter);
    if s.len() > 0 {
        lemma_filter_all(s.drop_last(), k);
        assert(s.drop_last().push(s.last()) =~= s);
    }
}

pub proof fn lemma_filter_none(s: Seq<CanMsgView>, k: u32)
    requires
        forall|j: int| 0 <= j < s.len() ==> (#[trigger] s[j]).hex_id != k,
    ensures
        s.filter(has_id(k)) == Seq::<CanMsgView>::empty(),
    decreases s.len(),
{
    reveal(Seq::filter);
    if s.len() > 0 {
        lemma_filter_none(s.drop_last(), k);
    }
}

/// A sample of the concatenation lies in one of the collections.
pub proof fn lemma_flatten_member(r: Seq<CollectionView>, x: CanMsgView)
    requires
        flatten(r).contains(x),
    ensures
        exists|i: int| 0 <= i < r.len() && (#[trigger] r[i]).collection.contains(x),
    decreases r.len(),
{
    if r.len() > 0 {
        let r0 = r.drop_last();
        let f0 = flatten(r0);
        let last = r.last().collection;
        let j = choose|j: int| 0 <= j < flatten(r).len() && flatten(r)[j] == x;
        if j < f0.len() {
            assert(f0[j] == x);
            lemma_flatten_member(r0, x);
            let i = choose|i: int| 0 <= i < r0.len() && (#[trigger] r0[i]).collection.contains(x);
            assert(r[i] == r0[i]);
        } else {
            assert(last[j - f0.len()] == x);
            assert(r[r.len() - 1].collection.contains(x));
        }
    }
}

pub proof fn lemma_total_samples(r: Seq<CollectionView>)
    ensures
        total_samples(r) == flatten(r).len(),
    decreases r.len(),
{
    if r.len() > 0 {
        lemma_total_samples(r.drop_last());
    }
}


/// Walks samples sorted by id and gathers them into collections: a sample whose
/// id is greater than the last one seen opens a new collection, with the
/// catalogue's descriptor of that id; any other joins the open one.
pub fn create_collection(can_msgs: &Vec<CanMsg>, can_ids: &Catalogue) -> (r: Vec<CanMsgCollection>)
    requires
        sorted_by_id(msgs_view(can_msgs@)),
        keyed_by_id(can_ids@),
    ensures
        collections_view(r@) == runs(msgs_view(can_msgs@), can_ids@),
{
    let ghost s = msgs_view(can_msgs@);
    let ghost cat = can_ids@;
    let mut collection: Vec<CanMsgCollection> = Vec::new();
    let mut cur_desc = CanId::empty_with_id(0);
    let mut cur_msgs: Vec<CanMsg> = Vec::new();
    let mut open = false;
    let mut last_id: u32 = 0;
    let mut i: usize = 0;
    while i < can_msgs.len()
        invariant
            i <= can_msgs@.len(),
            s == msgs_view(can_msgs@),
            cat == can_ids@,
            sorted_by_id(s),
            keyed_by_id(cat),
            !open ==> i == 0 && collection@.len() == 0,
            open ==> i > 0 && last_id == s[i - 1].hex_id && collections_view(collection@).push(
                CollectionView { can_id: cur_desc@, collection: msgs_view(cur_msgs@) },
            ) == runs(s.take(i as int), cat),
        decreases can_msgs@.len() - i,
    {
        let msg = can_msgs[i].duplicate();
        let id = msg.hex_id;
        let ghost t = s.take(i as int);
        let ghost t1 = s.take(i + 1);
        proof {
            assert(t1.drop_last() =~= t);
            assert(t1.last() == s[i as int]);
            assert(sorted_by_id(t));
            if i > 0 {
                lemma_runs(t, cat);
                assert(t.last() == s[i - 1]);
            }
        }
        let ghost before = collections_view(collection@);
        let ghost cur_before = CollectionView { can_id: cur_desc@, collection: msgs_view(cur_msgs@) };
        if !open || id > last_id {
            if open {
                let done = CanMsgCollection { can_id: cur_desc, collection: cur_msgs };
                collection.push(done);
                assert(collections_view(collection@) =~= before.push(cur_before));
            }
            cur_desc = can_ids.lookup(id);
            cur_msgs = Vec::new();
            cur_msgs.push(msg);
            assert(msgs_view(cur_msgs@) =~= seq![msg@]);
            open = true;
        } else {
            assert(s[i - 1].hex_id <= s[i as int].hex_id);
            let ghost old_msgs = msgs_view(cur_msgs@);
            cur_msgs.push(msg);
            assert(msgs_view(cur_msgs@) =~= old_msgs.push(msg@));
            assert(collections_view(collection@).push(
                CollectionView { can_id: cur_desc@, collection: msgs_view(cur_msgs@) },
            ) =~= runs(t1, cat));
        }
        last_id = id;
        i = i + 1;
    }
    assert(s.take(can_msgs@.len() as int) =~= s);
    if open {
        let ghost before = collections_view(collection@);
        let ghost cur_before = CollectionView { can_id: cur_desc@, collection: msgs_view(cur_msgs@) };
        collection.push(CanMsgCollection { can_id: cur_desc, collection: cur_msgs });
        assert(collections_view(collection@) =~= before.push(cur_before));
    } else {
        assert(collections_view(collection@) =~= runs(s, cat));
    }
    collection
}

/// Relies on `slice::sort_by_key` (std): a stable sort in ascending order of
/// the key, here the channel id. It permutes the samples, and samples of one
/// id keep their order.
#[verifier::external_body]
fn sort_by_channel(v: &mut Vec<CanMsg>)
    ensures
        sorted_by_id(msgs_view(final(v)@)),
        msgs_view(final(v)@).to_multiset() == msgs_view(old(v)@).to_multiset(),
        forall|k: u32| #[trigger]
            msgs_view(final(v)@).filter(has_id(k)) == msgs_view(old(v)@).filter(has_id(k)),
{
    v.sort_by_key(|m| m.hex_id)
}

/// Sorts the samples by channel id, keeping the order of samples of one
/// channel, and gathers them into one collection per channel.
pub fn group_by_channel(can_msgs: Vec<CanMsg>, can_ids: &Catalogue) -> (r: Vec<CanMsgCollection>)
    requires
        keyed_by_id(can_ids@),
    ensures
        is_grouping(msgs_view(can_msgs@), collections_view(r@), can_ids@),
        total_samples(collections_view(r@)) == can_msgs@.len(),
        forall|i: int, j: int|
            0 <= i < r@.len() && 0 <= j < r@.len() && i != j ==> coll_id(
                #[trigger] collections_view(r@)[i],
            ) != coll_id(#[trigger] collections_view(r@)[j]),
{
    let ghost s = msgs_view(can_msgs@);
    let ghost cat = can_ids@;
    let mut sorted = can_msgs;
    sort_by_channel(&mut sorted);
    let ghost t = msgs_view(sorted@);
    let r = create_collection(&sorted, can_ids);
    proof {
        let g = collections_view(r@);
        lemma_runs(t, cat);
        lemma_total_samples(g);
        s.to_multiset_ensures();
        t.to_multiset_ensures();
        assert forall|i: int| 0 <= i < g.len() implies {
            &&& #[trigger] g[i].collection == s.filter(has_id(coll_id(g[i])))
            &&& g[i].collection.len() > 0
            &&& g[i].can_id == describe(cat, coll_id(g[i]))
        } by {
            lemma_flatten_filter(g, coll_id(g[i]));
            assert(t.filter(has_id(coll_id(g[i]))) == s.filter(has_id(coll_id(g[i]))));
        }
        assert forall|j: int| 0 <= j < s.len() implies exists|i: int|
            0 <= i < g.len() && coll_id(g[i]) == #[trigger] s[j].hex_id by {
            let x = s[j];
            s.lemma_filter_contains(has_id(x.hex_id), j);
            t.lemma_filter_contains_rev(has_id(x.hex_id), x);
            lemma_flatten_member(g, x);
            let i = choose|i: int| 0 <= i < g.len() && (#[trigger] g[i]).collection.contains(x);
            let w = choose|w: int| 0 <= w < g[i].collection.len() && g[i].collection[w] == x;
            assert(g[i].collection[w].hex_id == coll_id(g[i]));
        }
    }
    r
}


pub open spec fn strictly_increasing(a: Seq<u32>) -> bool {
    forall|i: int, j: int| 0 <= i < j < a.len() ==> a[i] < a[j]
}

/// Two strictly increasing sequences that hold the same values are equal.
pub proof fn lemma_increasing_unique(a: Seq<u32>, b: Seq<u32>)
    requires
        strictly_increasing(a),
        strictly_increasing(b),
        forall|x: u32| a.contains(x) <==> b.contains(x),
    ensures
        a == b,
    decreases a.len(),
{
    if a.len() == 0 {
        if b.len() > 0 {
            assert(b.contains(b[0]));
        }
        assert(b =~= a);
    } else {
        assert(a.contains(a[0]));
        assert(b.contains(a[0]));
        assert(b.len() > 0);
        assert(b.contains(b[0]));
        assert(a.contains(b[0]));
        assert(a[0] == b[0]);
        let a1 = a.drop_first();
        let b1 = b.drop_first();
        assert forall|x: u32| a1.contains(x) <==> b1.contains(x) by {
            if a1.contains(x) {
                let i = choose|i: int| 0 <= i < a1.len() && a1[i] == x;
                assert(a[i + 1] == x);
                assert(a.contains(x));
                let j = choose|j: int| 0 <= j < b.len() && b[j] == x;
                assert(j > 0);
                assert(b1[j - 1] == x);
            }
            if b1.contains(x) {
                let i = choose|i: int| 0 <= i < b1.len() && b1[i] == x;
                assert(b[i + 1] == x);
                assert(b.contains(x));
                let j = choose|j: int| 0 <= j < a.len() && a[j] == x;
                assert(j > 0);
                assert(a1[j - 1] == x);
            }
        }
        lemma_increasing_unique(a1, b1);
        assert(a =~= b) by {
            assert forall|i: int| 0 <= i < a.len() implies a[i] == b[i] by {
                if i > 0 {
                    assert(a[i] == a1[i - 1]);
                    assert(b[i] == b1[i - 1]);
                }
            }
        }
    }
}

pub open spec fn collection_ids(r: Seq<CollectionView>) -> Seq<u32> {
    r.map_values(|c: CollectionView| coll_id(c))
}

pub proof fn lemma_grouping_homogeneous(s: Seq<CanMsgView>, r: Seq<CollectionView>, cat: Map<
    u32,
    CanIdView,
>)
    requires
        is_grouping(s, r, cat),
    ensures
        homogeneous(r),
{
    assert forall|i: int| 0 <= i < r.len() implies (#[trigger] r[i]).collection.len() > 0 && forall|
        j: int,
    | 0 <= j < r[i].collection.len() ==> #[trigger] r[i].collection[j].hex_id == coll_id(r[i]) by {
        assert forall|j: int| 0 <= j < r[i].collection.len() implies #[trigger] r[i].collection[j].hex_id
            == coll_id(r[i]) by {
            s.lemma_filter_pred(has_id(coll_id(r[i])), j);
        }
    }
}

proof fn lemma_regroup_same_ids(r: Seq<CollectionView>, r2: Seq<CollectionView>, cat: Map<
    u32,
    CanIdView,
>)
    requires
        homogeneous(r),
        ids_increasing(r),
        is_grouping(flatten(r), r2, cat),
    ensures
        collection_ids(r) == collection_ids(r2),
{
    let x = flatten(r);
    let a = collection_ids(r);
    let b = collection_ids(r2);
    assert forall|id: u32| a.contains(id) <==> b.contains(id) by {
        if a.contains(id) {
            let i = choose|i: int| 0 <= i < a.len() && a[i] == id;
            assert(a[i] == coll_id(r[i]));
            lemma_flatten_filter(r, id);
            let e = r[i].collection[0];
            x.lemma_filter_pred(has_id(id), 0);
            assert(x.filter(has_id(id)).contains(e));
            x.lemma_filter_contains_rev(has_id(id), e);
            let j = choose|j: int| 0 <= j < x.len() && x[j] == e;
            let i2 = choose|i2: int| 0 <= i2 < r2.len() && coll_id(r2[i2]) == #[trigger] x[j].hex_id;
            assert(b[i2] == id);
        }
        if b.contains(id) {
            let i = choose|i: int| 0 <= i < b.len() && b[i] == id;
            assert(b[i] == coll_id(r2[i]));
            let e = r2[i].collection[0];
            x.lemma_filter_pred(has_id(id), 0);
            assert(x.filter(has_id(id)).contains(e));
            x.lemma_filter_contains_rev(has_id(id), e);
            lemma_flatten_member(r, e);
            let i1 = choose|i1: int| 0 <= i1 < r.len() && (#[trigger] r[i1]).collection.contains(e);
            let w = choose|w: int| 0 <= w < r[i1].collection.len() && r[i1].collection[w] == e;
            assert(r[i1].collection[w].hex_id == coll_id(r[i1]));
            assert(a[i1] == id);
        }
    }
    lemma_increasing_unique(a, b);
}

/// Grouping is idempotent: grouping again the samples of a grouping, taken one
/// collection after the other, reproduces that grouping exactly.
pub proof fn lemma_regroup_identical(
    s: Seq<CanMsgView>,
    r: Seq<CollectionView>,
    r2: Seq<CollectionView>,
    cat: Map<u32, CanIdView>,
)
    requires
        is_grouping(s, r, cat),
        is_grouping(flatten(r), r2, cat),
    ensures
        r2 == r,
{
    lemma_grouping_homogeneous(s, r, cat);
    lemma_regroup_same_ids(r, r2, cat);
    let a = collection_ids(r);
    let b = collection_ids(r2);
    assert(a.len() == b.len());
    assert forall|i: int| 0 <= i < r.len() implies r2[i] == r[i] by {
        assert(a[i] == b[i]);
        assert(coll_id(r2[i]) == coll_id(r[i]));
        lemma_flatten_filter(r, coll_id(r[i]));
        assert(r2[i].collection == r[i].collection);
        assert(r2[i].can_id == r[i].can_id);
    }
    assert(r2 =~= r);
}

} // verus!
