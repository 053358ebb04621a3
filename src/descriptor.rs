//! Channel descriptors: what the catalogue knows of each channel.
use vstd::prelude::*;

verus! {

/// Metadata of one channel. The scale is kept as the floating-point literal
/// that the header wrote; all text is kept as the bytes of the source.
#[derive(Debug)]
pub struct CanId {
    pub hex_id: u32,
    pub str_id: Option<Vec<u8>>,
    pub description: Option<Vec<u8>>,
    pub scale: Option<Vec<u8>>,
    pub unit: Option<Vec<u8>>,
}

pub struct CanIdView {
    pub hex_id: u32,
    pub str_id: Option<Seq<u8>>,
    pub description: Option<Seq<u8>>,
    pub scale: Option<Seq<u8>>,
    pub unit: Option<Seq<u8>>,
}

pub open spec fn opt_bytes_view(o: Option<Vec<u8>>) -> Option<Seq<u8>> {
    match o {
        Some(v) => Some(v@),
        None => None,
    }
}

impl View for CanId {
    type V = CanIdView;

    open spec fn view(&self) -> CanIdView {
        CanIdView {
            hex_id: self.hex_id,
            str_id: opt_bytes_view(self.str_id),
            description: opt_bytes_view(self.description),
            scale: opt_bytes_view(self.scale),
            unit: opt_bytes_view(self.unit),
        }
    }
}

/// A descriptor that knows nothing but its id.
pub open spec fn anonymous(hex_id: u32) -> CanIdView {
    CanIdView { hex_id, str_id: None, description: None, scale: None, unit: None }
}

pub fn copy_bytes(v: &Vec<u8>) -> (r: Vec<u8>)
    ensures
        r@ == v@,
{
    let mut out: Vec<u8> = Vec::with_capacity(v.len());
    let mut i: usize = 0;
    while i < v.len()
        invariant
            i <= v@.len(),
            out@ == v@.take(i as int),
        decreases v@.len() - i,
    {
        out.push(v[i]);
        assert(v@.take(i + 1) =~= v@.take(i as int).push(v@[i as int]));
        i = i + 1;
    }
    assert(v@.take(v@.len() as int) =~= v@);
    out
}

pub fn copy_opt_bytes(o: &Option<Vec<u8>>) -> (r: Option<Vec<u8>>)
    ensures
        opt_bytes_view(r) == opt_bytes_view(*o),
{
    match o {
        Some(v) => Some(copy_bytes(v)),
        None => None,
    }
}

impl CanId {
    /// A descriptor for `hex_id` with no name, description, scale or unit.
    pub fn empty_with_id(hex_id: u32) -> (r: CanId)
        ensures
            r@ == anonymous(hex_id),
    {
        CanId { hex_id, str_id: None, description: None, scale: None, unit: None }
    }

    /// A copy of this descriptor.
    pub fn duplicate(&self) -> (r: CanId)
        ensures
            r@ == self@,
    {
        CanId {
            hex_id: self.hex_id,
            str_id: copy_opt_bytes(&self.str_id),
            description: copy_opt_bytes(&self.description),
            scale: copy_opt_bytes(&self.scale),
            unit: copy_opt_bytes(&self.unit),
        }
    }
}

impl Default for CanId {
    fn default() -> (r: CanId)
        ensures
            r@ == anonymous(0),
    {
        CanId::empty_with_id(0)
    }
}

/// Descriptors are the same channel when their ids are equal; the rest is metadata.
impl PartialEq for CanId {
    fn eq(&self, other: &CanId) -> (r: bool) {
        self.hex_id == other.hex_id
    }
}

impl vstd::std_specs::cmp::PartialEqSpecImpl for CanId {
    open spec fn obeys_eq_spec() -> bool {
        true
    }

    open spec fn eq_spec(&self, other: &CanId) -> bool {
        self.hex_id == other.hex_id
    }
}

impl Eq for CanId {

}

} // verus!
