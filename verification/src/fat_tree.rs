use vstd::prelude::*;

verus! {

/// A k-ary fat-tree data centre whose servers each host `vms_per_server` virtual machines.
///
/// Components are numbered layer by layer: first the VMs, then the servers, the edge switches,
/// the aggregation switches and finally the core switches.
#[derive(Debug, Clone, Copy)]
pub struct FatTree {
    pub num_ports: usize,
    pub vms_per_server: usize,
}

impl FatTree {
    /// Number of servers: k^3 / 4.
    pub open spec fn spec_servers(self) -> int {
        (self.num_ports * self.num_ports * self.num_ports) / 4
    }

    /// Number of VMs: one block of `vms_per_server` per server.
    pub open spec fn spec_vms(self) -> int {
        self.spec_servers() * self.vms_per_server
    }

    /// Number of aggregation switches: k * (k / 2).
    pub open spec fn spec_agg(self) -> int {
        self.num_ports * (self.num_ports / 2)
    }

    /// There are as many edge switches as aggregation switches.
    pub open spec fn spec_edges(self) -> int {
        self.spec_agg()
    }

    /// Number of core switches: (k / 2)^2.
    pub open spec fn spec_core(self) -> int {
        (self.num_ports / 2) * (self.num_ports / 2)
    }

    /// Number of components over all five layers.
    pub open spec fn spec_all(self) -> int {
        self.spec_vms() + self.spec_servers() + self.spec_edges() + self.spec_agg() + self.spec_core()
    }

    /// Number of components in the given layer (0: VMs, 1: servers, 2: edge, 3: aggregation, 4: core).
    pub open spec fn spec_layer_size(self, layer: int) -> int {
        if layer == 0 {
            self.spec_vms()
        } else if layer == 1 {
            self.spec_servers()
        } else if layer == 2 {
            self.spec_edges()
        } else if layer == 3 {
            self.spec_agg()
        } else {
            self.spec_core()
        }
    }

    /// The sizes of the fat tree fit in a machine word (k^3 too, as it is computed on the way).
    pub open spec fn fits(self) -> bool {
        &&& self.num_ports * self.num_ports * self.num_ports <= usize::MAX
        &&& self.spec_all() <= usize::MAX
    }

    /// A fat tree of k-port switches: k is even (each switch splits its ports half up, half down)
    /// and the sizes fit in a machine word.
    pub open spec fn well_formed(self) -> bool {
        &&& self.fits()
        &&& self.num_ports % 2 == 0
    }

    /// With k = 2h: 2h^3 servers, 2h^2 edge and aggregation switches, h^2 core switches.
    pub proof fn lemma_even_shape(self)
        requires
            self.num_ports % 2 == 0,
        ensures
            self.spec_servers() == 2 * (self.num_ports / 2) * (self.num_ports / 2) * (self.num_ports / 2),
            self.spec_agg() == 2 * (self.num_ports / 2) * (self.num_ports / 2),
            self.spec_edges() == 2 * (self.num_ports / 2) * (self.num_ports / 2),
            self.spec_core() == (self.num_ports / 2) * (self.num_ports / 2),
    {
        let k = self.num_ports as int;
        let h = k / 2;
        assert(k == 2 * h);
        assert(k * k * k == 8 * (h * h * h)) by (nonlinear_arith) requires k == 2 * h;
        assert(k * (k / 2) == 2 * h * h) by (nonlinear_arith) requires k == 2 * h, k / 2 == h;
        let x = h * h * h;
        assert((8 * x) / 4 == 2 * x);
        assert(2 * h * h * h == 2 * x) by (nonlinear_arith) requires x == h * h * h;
    }

    /// Every layer is at most the whole tree.
    pub proof fn lemma_parts_bounded(self)
        ensures
            0 <= self.spec_servers(),
            0 <= self.spec_vms(),
            0 <= self.spec_agg(),
            0 <= self.spec_core(),
            self.spec_vms() <= self.spec_all(),
            self.spec_servers() <= self.spec_all(),
            self.spec_edges() <= self.spec_all(),
            self.spec_agg() <= self.spec_all(),
            self.spec_core() <= self.spec_all(),
            self.num_ports * self.num_ports <= self.num_ports * self.num_ports * self.num_ports
                || self.num_ports == 0,
    {
        let k = self.num_ports as int;
        let v = self.vms_per_server as int;
        assert(0 <= k * k * k) by (nonlinear_arith) requires 0 <= k;
        assert(0 <= (k * k * k / 4) * v) by (nonlinear_arith)
            requires 0 <= k * k * k, 0 <= v;
        assert(0 <= k * (k / 2)) by (nonlinear_arith) requires 0 <= k;
        assert(0 <= (k / 2) * (k / 2)) by (nonlinear_arith) requires 0 <= k;
        assert(k == 0 || k * k <= k * k * k) by (nonlinear_arith) requires 0 <= k;
    }

    /// The five layers make up the whole tree: their sizes add up to the number of components.
    pub proof fn lemma_layers_make_tree(self)
        ensures
            self.spec_layer_size(0) + self.spec_layer_size(1) + self.spec_layer_size(2) + self.spec_layer_size(3)
                + self.spec_layer_size(4) == self.spec_all(),
    {
    }

    /// No component is both a VM and a server.
    pub proof fn lemma_vm_not_server(self, node_id: int)
        ensures
            !(node_id < self.spec_vms() && self.spec_vms() <= node_id < self.spec_vms() + self.spec_servers()),
    {
    }

    pub fn new(k: usize, vms_per_server: usize) -> (ft: FatTree)
        ensures
            ft.num_ports == k,
            ft.vms_per_server == vms_per_server,
    {
        FatTree { num_ports: k, vms_per_server }
    }

    pub fn components_at_layer(self, layer: usize) -> (n: usize)
        requires
            layer <= 1 ==> self.num_ports * self.num_ports * self.num_ports <= usize::MAX,
            self.spec_layer_size(layer as int) <= usize::MAX,
            layer <= 4,
        ensures
            n == self.spec_layer_size(layer as int),
    {
        match layer {
            0 => self.num_vms(),
            1 => self.num_servers(),
            2 => self.num_edges(),
            3 => self.num_agg(),
            _ => self.num_core(),
        }
    }

    pub fn num_vms(&self) -> (n: usize)
        requires
            self.num_ports * self.num_ports * self.num_ports <= usize::MAX,
            self.spec_vms() <= usize::MAX,
        ensures
            n == self.spec_vms(),
    {
        proof {
            self.lemma_parts_bounded();
        }
        self.num_servers() * self.vms_per_server
    }

    pub fn num_servers(&self) -> (n: usize)
        requires
            self.num_ports * self.num_ports * self.num_ports <= usize::MAX,
        ensures
            n == self.spec_servers(),
    {
        proof {
            self.lemma_parts_bounded();
        }
        let k = self.num_ports;
        k * k * k / 4
    }

    pub fn num_edges(&self) -> (n: usize)
        requires
            self.spec_edges() <= usize::MAX,
        ensures
            n == self.spec_edges(),
    {
        self.num_agg()
    }

    pub fn num_agg(&self) -> (n: usize)
        requires
            self.spec_agg() <= usize::MAX,
        ensures
            n == self.spec_agg(),
    {
        proof {
            self.lemma_parts_bounded();
        }
        self.num_ports * (self.num_ports / 2)
    }

    pub fn num_core(&self) -> (n: usize)
        requires
            self.spec_core() <= usize::MAX,
        ensures
            n == self.spec_core(),
    {
        proof {
            self.lemma_parts_bounded();
        }
        let half = self.num_ports / 2;
        half * half
    }

    pub fn num_all(&self) -> (n: usize)
        requires
            self.fits(),
        ensures
            n == self.spec_all(),
    {
        proof {
            self.lemma_parts_bounded();
        }
        self.num_vms() + self.num_servers() + self.num_edges() + self.num_agg() + self.num_core()
    }

    pub fn is_vnf(&self, node_id: usize) -> (b: bool)
        requires
            self.num_ports * self.num_ports * self.num_ports <= usize::MAX,
            self.spec_vms() <= usize::MAX,
        ensures
            b == (node_id < self.spec_vms()),
    {
        node_id < self.num_vms()
    }

    pub fn is_server(&self, node_id: usize) -> (b: bool)
        requires
            self.num_ports * self.num_ports * self.num_ports <= usize::MAX,
            self.spec_vms() + self.spec_servers() <= usize::MAX,
        ensures
            b == (self.spec_vms() <= node_id < self.spec_vms() + self.spec_servers()),
    {
        proof {
            self.lemma_parts_bounded();
        }
        node_id < (self.num_vms() + self.num_servers()) && !self.is_vnf(node_id)
    }
}

} // verus!
