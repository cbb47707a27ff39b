use vstd::prelude::*;

verus! {

pub type ServiceID = usize;

/// One virtual network function of a service chain.
///
/// The service rate is a real number that only the queueing model computes with; the library
/// carries it through placements as the bit pattern of an `f64` and never interprets it.
#[derive(Debug, Clone, Copy)]
pub struct VNF {
    pub id: usize,
    pub stage: usize,
    pub service_rate_bits: u64,
    pub queue_length: usize,
    pub service_id: usize,
}

/// Two VNFs are the same function when their ids agree.
impl PartialEq for VNF {
    fn eq(&self, other: &VNF) -> (r: bool) {
        self.id == other.id
    }
}

impl vstd::std_specs::cmp::PartialEqSpecImpl for VNF {
    open spec fn obeys_eq_spec() -> bool {
        true
    }

    open spec fn eq_spec(&self, other: &VNF) -> bool {
        self.id == other.id
    }
}

impl Eq for VNF {
}

/// `Hash::hash` on a `usize` feeds the number to the hasher; nothing is stated of the hasher's
/// state afterwards.
pub assume_specification<H: core::hash::Hasher>[ <usize as core::hash::Hash>::hash::<H> ](
    data: &usize,
    state: &mut H,
);

/// A VNF hashes as its id, in keeping with its equality.
impl core::hash::Hash for VNF {
    fn hash<H: core::hash::Hasher>(&self, state: &mut H) {
        self.id.hash(state);
    }
}

/// What a service is: its id, production rate and VNF chain.
pub struct ServiceView {
    pub id: ServiceID,
    pub prod_rate_bits: u64,
    pub vnfs: Seq<VNF>,
}

/// A service chain: its VNFs in stage order. The production rate is carried as the bit pattern
/// of an `f64`, as for `VNF`.
#[derive(Debug)]
pub struct Service {
    pub id: ServiceID,
    pub prod_rate_bits: u64,
    pub vnfs: Vec<VNF>,
}

impl View for Service {
    type V = ServiceView;

    open spec fn view(&self) -> ServiceView {
        ServiceView { id: self.id, prod_rate_bits: self.prod_rate_bits, vnfs: self.vnfs@ }
    }
}

/// The services of an intermediate solution, slot by slot.
pub open spec fn slots_view(s: Seq<Option<Service>>) -> Seq<Option<ServiceView>> {
    s.map_values(|o: Option<Service>| match o {
        Some(x) => Some(x@),
        None => None,
    })
}

impl Clone for Service {
    fn clone(&self) -> (res: Service)
        ensures
            res@ == self@,
    {
        let mut vnfs: Vec<VNF> = Vec::with_capacity(self.vnfs.len());
        let mut i: usize = 0;
        while i < self.vnfs.len()
            invariant
                i <= self.vnfs.len(),
                vnfs@ =~= self.vnfs@.subrange(0, i as int),
            decreases self.vnfs.len() - i,
        {
            vnfs.push(self.vnfs[i]);
            i += 1;
        }
        assert(vnfs@ =~= self.vnfs@);
        Service { id: self.id, prod_rate_bits: self.prod_rate_bits, vnfs }
    }
}

impl Service {
    /// The first VNF of the chain.
    pub fn first(&self) -> (v: &VNF)
        requires
            self.vnfs.len() > 0,
        ensures
            *v == self.vnfs@[0],
    {
        &self.vnfs[0]
    }
}

} // verus!
