//! Append-only code memory: regions are filled while writable and then
//! published as executable, never both at once.
use vstd::prelude::*;

verus! {

/// Granularity of code regions, in bytes.
pub const PAGE_SIZE: usize = 4096;

/// Pages a body of `len` bytes occupies.
pub open spec fn page_count(len: nat) -> nat {
    len / (PAGE_SIZE as nat) + if len % (PAGE_SIZE as nat) == 0 { 0nat } else { 1nat }
}

/// Bytes reserved for a body of `len` bytes: whole pages.
pub open spec fn reserved_size(len: nat) -> nat {
    page_count(len) * (PAGE_SIZE as nat)
}

/// Bytes reserved for the first `n` bodies.
pub open spec fn total_reserved(bodies: Seq<Vec<u8>>, n: int) -> nat
    decreases n,
{
    if n <= 0 {
        0
    } else {
        total_reserved(bodies, n - 1) + reserved_size(bodies[n - 1]@.len())
    }
}

/// One region of code memory as the mutator sees it.
pub struct RegionView {
    pub bytes: Seq<u8>,
    pub writable: bool,
    pub executable: bool,
}

/// Where a body was placed: the region that holds it and its length.
#[derive(Clone, Copy, Debug, PartialEq, Eq, Structural)]
pub struct CodeSlice {
    pub region: usize,
    pub len: usize,
}

/// The code memory: its regions, the bytes reserved so far and the limit.
pub struct CodeMemoryView {
    pub regions: Seq<RegionView>,
    pub reserved: nat,
    pub capacity: nat,
}

pub struct CodeMemory {
    bodies: Vec<Vec<u8>>,
    /// Per region: (writable, executable).
    flags: Vec<(bool, bool)>,
    reserved: usize,
    capacity: usize,
}

impl View for CodeMemory {
    type V = CodeMemoryView;

    closed spec fn view(&self) -> CodeMemoryView {
        CodeMemoryView {
            regions: Seq::new(
                self.bodies@.len(),
                |i: int| RegionView { bytes: self.bodies@[i]@, writable: self.flags@[i].0, executable: self.flags@[i].1 },
            ),
            reserved: self.reserved as nat,
            capacity: self.capacity as nat,
        }
    }
}

/// Every region is in exactly one of its two states, and the reservation
/// stays within the limit.
pub open spec fn code_memory_wf(m: CodeMemoryView) -> bool {
    &&& m.reserved <= m.capacity
    &&& m.capacity <= usize::MAX
    &&& forall|i: int| 0 <= i < m.regions.len() ==> #[trigger] m.regions[i].writable != m.regions[i].executable
}

/// Whether every region has been published.
pub open spec fn all_published(m: CodeMemoryView) -> bool {
    forall|i: int| 0 <= i < m.regions.len() ==> (#[trigger] m.regions[i]).executable && !m.regions[i].writable
}

/// No region of a well-formed code memory is writable and executable at once.
pub proof fn lemma_write_xor_execute(m: CodeMemoryView, i: int)
    requires
        code_memory_wf(m),
        0 <= i < m.regions.len(),
    ensures
        !(m.regions[i].writable && m.regions[i].executable),
{
}

fn copy_bytes(v: &Vec<u8>) -> (r: Vec<u8>)
    ensures
        r@ == v@,
{
    let mut r: Vec<u8> = Vec::new();
    let mut i: usize = 0;
    while i < v.len()
        invariant
            i <= v@.len(),
            r@ == v@.subrange(0, i as int),
        decreases v@.len() - i,
    {
        r.push(v[i]);
        i = i + 1;
    }
    assert(r@ =~= v@);
    r
}

/// The bytes reserved for a body of `len` bytes, or `None` when that exceeds `room`.
fn reservation(len: usize, room: usize) -> (r: Option<usize>)
    ensures
        r matches Some(n) ==> n == reserved_size(len as nat) && n <= room,
        r is None <==> reserved_size(len as nat) > room,
{
    let pages: usize = len / PAGE_SIZE + if len % PAGE_SIZE == 0 { 0usize } else { 1usize };
    assert(pages == page_count(len as nat));
    if pages > room / PAGE_SIZE {
        assert(pages * 4096 > room) by (nonlinear_arith)
            requires pages > room / 4096;
        None
    } else {
        assert(pages * 4096 <= room) by (nonlinear_arith)
            requires pages <= room / 4096;
        Some(pages * PAGE_SIZE)
    }
}

/// The bytes all of `bodies` reserve, or `None` when that exceeds `room`.
pub fn total_reservation(bodies: &Vec<Vec<u8>>, room: usize) -> (r: Option<usize>)
    ensures
        r matches Some(n) ==> n == total_reserved(bodies@, bodies@.len() as int) && n <= room,
        r is None <==> total_reserved(bodies@, bodies@.len() as int) > room,
{
    let mut need: usize = 0;
    let mut i: usize = 0;
    while i < bodies.len()
        invariant
            i <= bodies@.len(),
            need == total_reserved(bodies@, i as int),
            need <= room,
        decreases bodies@.len() - i,
    {
        match reservation(bodies[i].len(), room - need) {
            None => {
                proof {
                    lemma_total_reserved_grows(bodies@, i as int + 1, bodies@.len() as int);
                }
                return None;
            },
            Some(n) => {
                need = need + n;
            },
        }
        i = i + 1;
    }
    Some(need)
}

impl CodeMemory {
    /// Bytes that may still be reserved.
    pub fn room(&self) -> (r: usize)
        requires
            self.wf(),
        ensures
            r == self@.capacity - self@.reserved,
    {
        self.capacity - self.reserved
    }

    pub closed spec fn inv(&self) -> bool {
        self.bodies@.len() == self.flags@.len()
    }

    /// Well-formedness: the representation agrees with itself and the view is well formed.
    pub open spec fn wf(&self) -> bool {
        self.inv() && code_memory_wf(self@)
    }

    /// An empty code memory that may reserve up to `capacity` bytes.
    pub fn new(capacity: usize) -> (r: CodeMemory)
        ensures
            r.wf(),
            r@.regions.len() == 0,
            r@.reserved == 0,
            r@.capacity == capacity,
    {
        let r = CodeMemory { bodies: Vec::new(), flags: Vec::new(), reserved: 0, capacity };
        assert(r@.regions =~= Seq::<RegionView>::empty());
        r
    }

    /// Copies `body` into a fresh writable region.
    pub fn allocate_for_function(&mut self, body: &Vec<u8>) -> (r: Result<CodeSlice, String>)
        requires
            old(self).wf(),
        ensures
            final(self).wf(),
            final(self)@.capacity == old(self)@.capacity,
            r is Err <==> old(self)@.reserved + reserved_size(body@.len()) > old(self)@.capacity,
            r is Err ==> final(self)@ == old(self)@,
            r matches Ok(s) ==> {
                &&& s.region == old(self)@.regions.len()
                &&& s.len == body@.len()
                &&& final(self)@.reserved == old(self)@.reserved + reserved_size(body@.len())
                &&& final(self)@.regions == old(self)@.regions.push(
                    RegionView { bytes: body@, writable: true, executable: false },
                )
            },
    {
        match reservation(body.len(), self.capacity - self.reserved) {
            None => Err(String::from_str("out of code memory")),
            Some(n) => {
                let ghost before = self@.regions;
                let region = self.bodies.len();
                self.bodies.push(copy_bytes(body));
                self.flags.push((true, false));
                self.reserved = self.reserved + n;
                assert(self@.regions =~= before.push(
                    RegionView { bytes: body@, writable: true, executable: false },
                ));
                Ok(CodeSlice { region, len: body.len() })
            },
        }
    }

    /// Copies every body into its own fresh writable region. Either all of
    /// them fit, or nothing is allocated.
    pub fn allocate_functions(&mut self, bodies: &Vec<Vec<u8>>) -> (r: Result<Vec<CodeSlice>, String>)
        requires
            old(self).wf(),
        ensures
            final(self).wf(),
            final(self)@.capacity == old(self)@.capacity,
            r is Err <==> old(self)@.reserved + total_reserved(bodies@, bodies@.len() as int) > old(self)@.capacity,
            r is Err ==> final(self)@ == old(self)@,
            r matches Ok(slices) ==> {
                &&& slices@.len() == bodies@.len()
                &&& final(self)@.reserved == old(self)@.reserved + total_reserved(bodies@, bodies@.len() as int)
                &&& final(self)@.regions.len() == old(self)@.regions.len() + bodies@.len()
                &&& final(self)@.regions.subrange(0, old(self)@.regions.len() as int) == old(self)@.regions
                &&& forall|i: int| 0 <= i < bodies@.len() ==> {
                    &&& (#[trigger] slices@[i]).region == old(self)@.regions.len() + i
                    &&& slices@[i].len == bodies@[i]@.len()
                    &&& final(self)@.regions[old(self)@.regions.len() + i]
                        == (RegionView { bytes: bodies@[i]@, writable: true, executable: false })
                }
            },
    {
        if total_reservation(bodies, self.room()).is_none() {
            return Err(String::from_str("failed to allocate memory for functions: out of code memory"));
        }
        let ghost start = self@;
        let mut slices: Vec<CodeSlice> = Vec::new();
        let mut k: usize = 0;
        while k < bodies.len()
            invariant
                k <= bodies@.len(),
                self.wf(),
                self@.capacity == start.capacity,
                start.reserved + total_reserved(bodies@, bodies@.len() as int) <= start.capacity,
                self@.reserved == start.reserved + total_reserved(bodies@, k as int),
                self@.regions.len() == start.regions.len() + k,
                self@.regions.subrange(0, start.regions.len() as int) == start.regions,
                slices@.len() == k,
                forall|j: int| 0 <= j < k ==> {
                    &&& (#[trigger] slices@[j]).region == start.regions.len() + j
                    &&& slices@[j].len == bodies@[j]@.len()
                    &&& self@.regions[start.regions.len() + j]
                        == (RegionView { bytes: bodies@[j]@, writable: true, executable: false })
                },
            decreases bodies@.len() - k,
        {
            proof {
                lemma_total_reserved_grows(bodies@, k as int + 1, bodies@.len() as int);
            }
            let ghost prev = self@.regions;
            let s = self.allocate_for_function(&bodies[k]);
            match s {
                Ok(s) => {
                    let ghost before = slices@;
                    slices.push(s);
                    assert(self@.regions.subrange(0, start.regions.len() as int)
                        =~= prev.subrange(0, start.regions.len() as int));
                    assert forall|j: int| 0 <= j < k + 1 implies {
                        &&& (#[trigger] slices@[j]).region == start.regions.len() + j
                        &&& slices@[j].len == bodies@[j]@.len()
                        &&& self@.regions[start.regions.len() + j]
                            == (RegionView { bytes: bodies@[j]@, writable: true, executable: false })
                    } by {
                        if j < k {
                            assert(slices@[j] == before[j]);
                            assert(self@.regions[start.regions.len() + j] == prev[start.regions.len() + j]);
                        }
                    }
                },
                Err(_) => {
                    assert(false);
                },
            }
            k = k + 1;
        }
        Ok(slices)
    }

    /// Turns every writable region executable. Calling it again changes nothing.
    pub fn publish(&mut self)
        requires
            old(self).wf(),
        ensures
            final(self).wf(),
            all_published(final(self)@),
            final(self)@.reserved == old(self)@.reserved,
            final(self)@.capacity == old(self)@.capacity,
            final(self)@.regions.len() == old(self)@.regions.len(),
            forall|i: int| 0 <= i < old(self)@.regions.len() ==>
                (#[trigger] final(self)@.regions[i]).bytes == old(self)@.regions[i].bytes,
            all_published(old(self)@) ==> final(self)@ == old(self)@,
    {
        let ghost start = self@;
        let mut i: usize = 0;
        while i < self.flags.len()
            invariant
                self.inv(),
                self.bodies == old(self).bodies,
                self.reserved == old(self).reserved,
                self.capacity == old(self).capacity,
                self.flags@.len() == old(self).flags@.len(),
                i <= self.flags@.len(),
                forall|j: int| 0 <= j < i ==> #[trigger] self.flags@[j] == (false, true),
                forall|j: int| i <= j < self.flags@.len() ==> #[trigger] self.flags@[j] == old(self).flags@[j],
            decreases self.flags@.len() - i,
        {
            self.flags.set(i, (false, true));
            i = i + 1;
        }
        proof {
            assert forall|j: int| 0 <= j < self@.regions.len() implies
                (#[trigger] self@.regions[j]).bytes == start.regions[j].bytes
                && self@.regions[j].executable && !self@.regions[j].writable by {
                assert(self.flags@[j] == (false, true));
            }
            if all_published(start) {
                assert forall|j: int| 0 <= j < start.regions.len() implies self@.regions[j] == start.regions[j] by {
                    assert(start.regions[j].executable && !start.regions[j].writable);
                }
                assert(self@.regions =~= start.regions);
            }
        }
    }

    /// Whether the region behind `slice` may be executed.
    pub fn is_executable(&self, slice: CodeSlice) -> (r: bool)
        requires
            self.wf(),
        ensures
            r == (slice.region < self@.regions.len() && self@.regions[slice.region as int].executable),
    {
        slice.region < self.flags.len() && self.flags[slice.region].1
    }

    /// Whether the region behind `slice` may be written.
    pub fn is_writable(&self, slice: CodeSlice) -> (r: bool)
        requires
            self.wf(),
        ensures
            r == (slice.region < self@.regions.len() && self@.regions[slice.region as int].writable),
    {
        slice.region < self.flags.len() && self.flags[slice.region].0
    }
}

proof fn lemma_total_reserved_grows(bodies: Seq<Vec<u8>>, i: int, n: int)
    requires
        0 <= i <= n,
    ensures
        total_reserved(bodies, i) <= total_reserved(bodies, n),
    decreases n - i,
{
    if i < n {
        lemma_total_reserved_grows(bodies, i, n - 1);
    }
}

} // verus!
