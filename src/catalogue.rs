//! The catalogue: channel descriptors keyed by channel id, and the
//! reconciliation of sampled ids against it.
use vstd::prelude::*;
use std::collections::HashMap;
use crate::descriptor::{anonymous, copy_bytes, CanId, CanIdView};
use crate::messages::{CanMsg, CanMsgView};

verus! {

broadcast use vstd::std_specs::hash::group_hash_axioms;

/// Descriptors keyed by channel id.
pub struct Catalogue {
    entries: HashMap<u32, CanId>,
}

impl View for Catalogue {
    type V = Map<u32, CanIdView>;

    closed spec fn view(&self) -> Map<u32, CanIdView> {
        self.entries@.map_values(|c: CanId| c@)
    }
}

/// Every descriptor is filed under its own id.
pub open spec fn keyed_by_id(m: Map<u32, CanIdView>) -> bool {
    forall|k: u32| #[trigger] m.contains_key(k) ==> m[k].hex_id == k
}

/// The catalogue that a header's descriptors make, in file order; a later
/// descriptor of an id replaces an earlier one.
pub open spec fn catalogue_of(ids: Seq<CanIdView>) -> Map<u32, CanIdView>
    decreases ids.len(),
{
    if ids.len() == 0 {
        Map::empty()
    } else {
        catalogue_of(ids.drop_last()).insert(ids.last().hex_id, ids.last())
    }
}

/// The descriptor of `id`: the catalogue's, or an anonymous one.
pub open spec fn describe(m: Map<u32, CanIdView>, id: u32) -> CanIdView {
    if m.contains_key(id) {
        m[id]
    } else {
        anonymous(id)
    }
}

/// The id with its 4-bit device field (bits 12 to 15) cleared.
pub open spec fn device_base(id: u32) -> u32 {
    id & 0xffff_0fff
}

/// The device number held in bits 12 to 15 of the id.
pub open spec fn device_of(id: u32) -> u32 {
    (id >> 12) & 0xf
}

/// The decimal digits of `n`, for `n` below 100.
pub open spec fn small_decimal(n: u32) -> Seq<u8> {
    if n < 10 {
        seq![(0x30 + n) as u8]
    } else {
        seq![(0x30 + n / 10) as u8, (0x30 + n % 10) as u8]
    }
}

/// `-DEV<n>`, appended to the name of a descriptor made for device `n`.
pub open spec fn device_suffix(n: u32) -> Seq<u8> {
    seq![0x2du8, 0x44u8, 0x45u8, 0x56u8] + small_decimal(n)
}

/// The descriptor made for `id` from the descriptor of its device base: the
/// same description, scale and unit, and the name suffixed `-DEV<n>`.
pub open spec fn derived(base: CanIdView, id: u32) -> CanIdView {
    let name = match base.str_id {
        Some(n) => n,
        None => seq![],
    };
    CanIdView {
        hex_id: id,
        str_id: Some(name + device_suffix(device_of(id))),
        description: base.description,
        scale: base.scale,
        unit: base.unit,
    }
}

/// One step of reconciliation: an id that the catalogue lacks, but whose device
/// base it has, gets a derived descriptor.
pub open spec fn reconcile_step(m: Map<u32, CanIdView>, id: u32) -> Map<u32, CanIdView> {
    if !m.contains_key(id) && m.contains_key(device_base(id)) {
        m.insert(id, derived(m[device_base(id)], id))
    } else {
        m
    }
}

/// The catalogue once the ids `ids` have been reconciled in order.
pub open spec fn reconciled(m: Map<u32, CanIdView>, ids: Seq<u32>) -> Map<u32, CanIdView>
    decreases ids.len(),
{
    if ids.len() == 0 {
        m
    } else {
        reconcile_step(reconciled(m, ids.drop_last()), ids.last())
    }
}

/// The ids that neither match nor fall back to a device base, each once, in
/// the order they first failed.
pub open spec fn unmappable(m: Map<u32, CanIdView>, ids: Seq<u32>) -> Seq<u32>
    decreases ids.len(),
{
    if ids.len() == 0 {
        seq![]
    } else {
        let before = unmappable(m, ids.drop_last());
        let cur = reconciled(m, ids.drop_last());
        let id = ids.last();
        if !cur.contains_key(id) && !cur.contains_key(device_base(id)) && !before.contains(id) {
            before.push(id)
        } else {
            before
        }
    }
}

pub open spec fn ids_of(msgs: Seq<CanMsgView>) -> Seq<u32> {
    msgs.map_values(|m: CanMsgView| m.hex_id)
}

pub open spec fn descriptors_view(v: Seq<CanId>) -> Seq<CanIdView> {
    v.map_values(|c: CanId| c@)
}

fn device_suffix_exec(id: u32) -> (r: Vec<u8>)
    ensures
        r@ == device_suffix(device_of(id)),
{
    let n = (id >> 12) & 0xf;
    assert(n < 16) by (bit_vector)
        requires
            n == (id >> 12) & 0xf,
    ;
    let mut r: Vec<u8> = Vec::new();
    r.push(0x2d);
    r.push(0x44);
    r.push(0x45);
    r.push(0x56);
    if n < 10 {
        r.push((0x30 + n) as u8);
    } else {
        r.push((0x30 + n / 10) as u8);
        r.push((0x30 + n % 10) as u8);
    }
    assert(r@ =~= device_suffix(device_of(id)));
    r
}

impl Catalogue {
    /// An empty catalogue.
    pub fn new() -> (r: Catalogue)
        ensures
            r@ == Map::<u32, CanIdView>::empty(),
            keyed_by_id(r@),
    {
        let r = Catalogue { entries: HashMap::new() };
        assert(r@ =~= Map::<u32, CanIdView>::empty());
        r
    }

    /// Files `c` under its id, replacing what was there.
    pub fn insert(&mut self, c: CanId)
        ensures
            final(self)@ == old(self)@.insert(c.hex_id, c@),
            keyed_by_id(old(self)@) ==> keyed_by_id(final(self)@),
    {
        let ghost before = self@;
        let k = c.hex_id;
        let ghost cv = c@;
        self.entries.insert(k, c);
        assert(self@ =~= before.insert(k, cv));
    }

    /// The descriptor filed under `id`, if any.
    pub fn get(&self, id: u32) -> (r: Option<&CanId>)
        ensures
            match r {
                Some(c) => self@.contains_key(id) && c@ == self@[id],
                None => !self@.contains_key(id),
            },
    {
        self.entries.get(&id)
    }

    pub fn contains(&self, id: u32) -> (r: bool)
        ensures
            r == self@.contains_key(id),
    {
        self.entries.contains_key(&id)
    }

    /// The number of descriptors.
    pub fn len(&self) -> (r: usize)
        ensures
            r == self@.len(),
    {
        proof {
            assert(self@.dom() =~= self.entries@.dom());
        }
        self.entries.len()
    }

    /// A copy of the descriptor of `id`: the catalogue's, or an anonymous one.
    pub fn lookup(&self, id: u32) -> (r: CanId)
        ensures
            r@ == describe(self@, id),
    {
        match self.get(id) {
            Some(c) => c.duplicate(),
            None => CanId::empty_with_id(id),
        }
    }
}

/// Files the descriptors of a header under their ids; a later descriptor of an
/// id replaces an earlier one.
pub fn acquire_can_ids(can_ids: Vec<CanId>) -> (r: Catalogue)
    ensures
        r@ == catalogue_of(descriptors_view(can_ids@)),
        keyed_by_id(r@),
{
    let mut cat = Catalogue::new();
    let ghost all = descriptors_view(can_ids@);
    let mut k: usize = 0;
    while k < can_ids.len()
        invariant
            k <= can_ids@.len(),
            all == descriptors_view(can_ids@),
            cat@ == catalogue_of(all.take(k as int)),
            keyed_by_id(cat@),
        decreases can_ids@.len() - k,
    {
        let c = can_ids[k].duplicate();
        assert(all.take(k + 1).drop_last() =~= all.take(k as int));
        assert(all.take(k + 1).last() == c@);
        cat.insert(c);
        k = k + 1;
    }
    assert(all.take(can_ids@.len() as int) =~= all);
    cat
}

/// The descriptor for `id` made from `base`.
fn derive_for_device(base: &CanId, id: u32) -> (r: CanId)
    ensures
        r@ == derived(base@, id),
{
    let mut name: Vec<u8> = match &base.str_id {
        Some(n) => copy_bytes(n),
        None => Vec::new(),
    };
    let mut suffix = device_suffix_exec(id);
    let ghost name0 = name@;
    name.append(&mut suffix);
    CanId {
        hex_id: id,
        str_id: Some(name),
        description: crate::descriptor::copy_opt_bytes(&base.description),
        scale: crate::descriptor::copy_opt_bytes(&base.scale),
        unit: crate::descriptor::copy_opt_bytes(&base.unit),
    }
}

pub proof fn lemma_reconcile_keeps(m: Map<u32, CanIdView>, ids: Seq<u32>)
    requires
        keyed_by_id(m),
    ensures
        keyed_by_id(reconciled(m, ids)),
        forall|k: u32| #[trigger] m.contains_key(k) ==> reconciled(m, ids).contains_key(k)
            && reconciled(m, ids)[k] == m[k],
    decreases ids.len(),
{
    if ids.len() > 0 {
        lemma_reconcile_keeps(m, ids.drop_last());
    }
}

/// Reconciles the ids of `can_msgs` against the catalogue: an id it lacks but
/// whose device base it has gets a derived descriptor under its own id. Returns
/// the ids that could be mapped neither way, each once.
pub fn check_can_ids(can_msgs: &Vec<CanMsg>, can_ids: &mut Catalogue) -> (r: Vec<u32>)
    requires
        keyed_by_id(old(can_ids)@),
    ensures
        final(can_ids)@ == reconciled(
            old(can_ids)@,
            ids_of(crate::messages::msgs_view(can_msgs@)),
        ),
        r@ == unmappable(old(can_ids)@, ids_of(crate::messages::msgs_view(can_msgs@))),
        keyed_by_id(final(can_ids)@),
        forall|k: u32| #[trigger]
            old(can_ids)@.contains_key(k) ==> final(can_ids)@.contains_key(k) && final(can_ids)@[k]
                == old(can_ids)@[k],
{
    let ghost m0 = can_ids@;
    let ghost ids = ids_of(crate::messages::msgs_view(can_msgs@));
    let mut not_mappable: Vec<u32> = Vec::new();
    let mut i: usize = 0;
    while i < can_msgs.len()
        invariant
            i <= can_msgs@.len(),
            ids == ids_of(crate::messages::msgs_view(can_msgs@)),
            keyed_by_id(m0),
            can_ids@ == reconciled(m0, ids.take(i as int)),
            not_mappable@ == unmappable(m0, ids.take(i as int)),
        decreases can_msgs@.len() - i,
    {
        let id = can_msgs[i].hex_id;
        assert(ids.take(i + 1).drop_last() =~= ids.take(i as int));
        assert(ids.take(i + 1).last() == id);
        if !can_ids.contains(id) {
            let base_id = id & !(0xfu32 << 12);
            assert(base_id == device_base(id)) by (bit_vector)
                requires
                    base_id == id & !(0xfu32 << 12),
            ;
            let found = match can_ids.get(base_id) {
                Some(base) => Some(derive_for_device(base, id)),
                None => None,
            };
            match found {
                Some(c) => {
                    can_ids.insert(c);
                },
                None => {
                    let mut seen = false;
                    let mut j: usize = 0;
                    while j < not_mappable.len()
                        invariant
                            j <= not_mappable@.len(),
                            seen <==> exists|w: int| 0 <= w < j && not_mappable@[w] == id,
                        decreases not_mappable@.len() - j,
                    {
                        if not_mappable[j] == id {
                            seen = true;
                            assert(not_mappable@[j as int] == id);
                        }
                        j = j + 1;
                    }
                    assert(seen <==> not_mappable@.contains(id));
                    if !seen {
                        not_mappable.push(id);
                    }
                },
            }
        }
        i = i + 1;
    }
    assert(ids.take(can_msgs@.len() as int) =~= ids);
    proof {
        lemma_reconcile_keeps(m0, ids);
    }
    not_mappable
}

} // verus!
