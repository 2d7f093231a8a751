use vstd::prelude::*;

use shared_memory::{Shmem, ShmemConf, ShmemError};

use crate::ring::{lemma_dequeue_contents, lemma_enqueue_contents, QueueError, QueuingPort, RingState};

verus! {

#[verifier::external_type_specification]
#[verifier::external_body]
pub struct ExShmem(Shmem);

#[verifier::external_type_specification]
#[verifier::external_body]
pub struct ExShmemError(ShmemError);

/// Relies on shared_memory's `ShmemConf::create` with an os id and a size:
/// it creates a new named mapping or fails (the name is taken, the size is
/// zero, the OS refuses). Nothing is promised of which.
#[verifier::external_body]
fn create_region(os_id: &str, size: usize) -> (r: Result<Shmem, ShmemError>) {
    ShmemConf::new().size(size).os_id(os_id).create()
}

/// Relies on shared_memory's `ShmemConf::open` with an os id: it maps the
/// existing mapping of that name or fails. Nothing is promised of which.
#[verifier::external_body]
fn open_region(os_id: &str) -> (r: Result<Shmem, ShmemError>) {
    ShmemConf::new().os_id(os_id).open()
}

/// Relies on shared_memory's `Shmem::len`: the size of the mapping in bytes.
pub assume_specification[ Shmem::len ](s: &Shmem) -> usize;

/// The state of the port bound to `name`, or that of a fresh port where the
/// name is not bound yet (the first access binds it to a fresh port).
pub open spec fn bound_port(m: Map<Seq<char>, RingState>, name: Seq<char>) -> RingState {
    if m.contains_key(name) {
        m[name]
    } else {
        RingState::empty()
    }
}

/// Every bound port is well formed.
pub open spec fn all_wf(m: Map<Seq<char>, RingState>) -> bool {
    forall|n: Seq<char>| #[trigger] m.contains_key(n) ==> m[n].wf()
}

/// The bindings and result of an enqueue on the port bound to `name`.
pub open spec fn shared_enqueue(m: Map<Seq<char>, RingState>, name: Seq<char>, item: i32) -> (
    Map<Seq<char>, RingState>,
    Result<(), QueueError>,
) {
    let (p, r) = bound_port(m, name).enqueue(item);
    (m.insert(name, p), r)
}

/// The bindings and result of a dequeue on the port bound to `name`.
pub open spec fn shared_dequeue(m: Map<Seq<char>, RingState>, name: Seq<char>) -> (
    Map<Seq<char>, RingState>,
    Result<i32, QueueError>,
) {
    let (p, r) = bound_port(m, name).dequeue();
    (m.insert(name, p), r)
}

/// Decides whether a region obtained for a name can back a port: `len` is
/// the size in bytes of the region that creating or opening gave, `None`
/// where neither gave one. The region is accepted exactly when it is at
/// least as large as a port.
pub fn check_region(len: Option<usize>) -> (r: Result<(), QueueError>)
    ensures
        r is Ok <==> (len is Some && len->0 >= vstd::layout::size_of::<QueuingPort>()),
        r is Err ==> r == Err::<(), QueueError>(QueueError::RegionUnavailable),
{
    match len {
        Some(n) => {
            if n >= core::mem::size_of::<QueuingPort>() {
                Ok(())
            } else {
                Err(QueueError::RegionUnavailable)
            }
        },
        None => Err(QueueError::RegionUnavailable),
    }
}

/// Binds names to ports. The first access to a name obtains the shared
/// memory region of that name, created or else opened, and binds a fresh
/// port to the name; every later access to the name reaches the same port.
/// The port itself is held in the registry's own memory: the region is only
/// reserved under the name, sized for one port, and never written. Bindings,
/// and the regions they reserve, last as long as the registry.
pub struct SharedRegistry {
    names: Vec<String>,
    ports: Vec<QueuingPort>,
    regions: Vec<Shmem>,
}

impl SharedRegistry {
    /// The three lists run in step, names are distinct and every port is
    /// well formed.
    pub closed spec fn wf(&self) -> bool {
        &&& self.ports.len() == self.names.len()
        &&& self.regions.len() == self.names.len()
        &&& forall|i: int, j: int|
            0 <= i < j < self.names.len() ==> self.names[i]@ != self.names[j]@
        &&& forall|i: int| 0 <= i < self.ports.len() ==> (#[trigger] self.ports[i])@.wf()
    }

    spec fn has(&self, name: Seq<char>) -> bool {
        exists|i: int| 0 <= i < self.names.len() && self.names[i]@ == name
    }

    spec fn index_of(&self, name: Seq<char>) -> int {
        choose|i: int| 0 <= i < self.names.len() && self.names[i]@ == name
    }

    /// The state of the port bound to each name.
    pub closed spec fn bindings(&self) -> Map<Seq<char>, RingState> {
        Map::new(|n: Seq<char>| self.has(n), |n: Seq<char>| self.ports[self.index_of(n)]@)
    }

    /// A registry with no binding.
    pub fn new() -> (r: Self)
        ensures
            r.wf(),
            r.bindings() == Map::<Seq<char>, RingState>::empty(),
    {
        let r = SharedRegistry { names: Vec::new(), ports: Vec::new(), regions: Vec::new() };
        assert(r.bindings() =~= Map::<Seq<char>, RingState>::empty());
        r
    }

    proof fn lemma_bindings(&self)
        requires
            self.wf(),
        ensures
            all_wf(self.bindings()),
            forall|i: int|
                0 <= i < self.names.len() ==> self.bindings().contains_key(#[trigger] self.names[i]@)
                    && self.bindings()[self.names[i]@] == self.ports[i]@,
    {
        assert forall|i: int| 0 <= i < self.names.len() implies self.bindings().contains_key(
            #[trigger] self.names[i]@,
        ) && self.bindings()[self.names[i]@] == self.ports[i]@ by {
            let n = self.names[i]@;
            assert(self.has(n));
            let k = self.index_of(n);
            assert(k == i);
        }
        assert forall|n: Seq<char>| #[trigger] self.bindings().contains_key(n) implies self.bindings()[n].wf() by {
            let k = self.index_of(n);
            assert(self.ports[k]@.wf());
        }
    }

    /// Position of the binding of `os_id`, if it is bound.
    fn find(&self, os_id: &str) -> (r: Option<usize>)
        requires
            self.wf(),
        ensures
            match r {
                Some(i) => i < self.names.len() && self.names[i as int]@ == os_id@,
                None => !self.bindings().contains_key(os_id@),
            },
    {
        let key = os_id.to_owned();
        let mut i: usize = 0;
        while i < self.names.len()
            invariant
                i <= self.names.len(),
                key@ == os_id@,
                forall|j: int| 0 <= j < i ==> self.names[j]@ != os_id@,
            decreases self.names.len() - i,
        {
            if self.names[i].eq(&key) {
                return Some(i);
            }
            i += 1;
        }
        None
    }

    /// Position of the binding of `os_id`, after binding it to a fresh port
    /// where it was not bound. Binding obtains the region named `os_id`,
    /// created if it does not exist yet, else opened, and fails with
    /// `RegionUnavailable` where neither works or the region is too small to
    /// hold a port.
    fn slot_for(&mut self, os_id: &str) -> (r: Result<usize, QueueError>)
        requires
            old(self).wf(),
        ensures
            final(self).wf(),
            old(self).bindings().contains_key(os_id@) ==> r is Ok,
            r is Ok ==> r->Ok_0 < final(self).names.len() && final(self).names[r->Ok_0 as int]@ == os_id@
                && final(self).ports[r->Ok_0 as int]@ == bound_port(old(self).bindings(), os_id@),
            r is Ok ==> final(self).bindings() == old(self).bindings().insert(
                os_id@,
                bound_port(old(self).bindings(), os_id@),
            ),
            r is Err ==> r == Err::<usize, QueueError>(QueueError::RegionUnavailable)
                && !old(self).bindings().contains_key(os_id@)
                && final(self).bindings() == old(self).bindings(),
    {
        proof {
            self.lemma_bindings();
        }
        if let Some(i) = self.find(os_id) {
            assert(self.bindings().insert(os_id@, bound_port(self.bindings(), os_id@)) =~= self.bindings());
            return Ok(i);
        }
        let size = core::mem::size_of::<QueuingPort>();
        let region = match create_region(os_id, size) {
            Ok(region) => Some(region),
            Err(_) => match open_region(os_id) {
                Ok(region) => Some(region),
                Err(_) => None,
            },
        };
        let len = match &region {
            Some(region) => Some(region.len()),
            None => None,
        };
        if let Err(e) = check_region(len) {
            return Err(e);
        }
        let region = match region {
            Some(region) => region,
            None => return Err(QueueError::RegionUnavailable),
        };
        let ghost before = self.bindings();
        self.names.push(os_id.to_owned());
        self.ports.push(QueuingPort::new());
        self.regions.push(region);
        let i = self.names.len() - 1;
        proof {
            self.lemma_bindings();
            assert(self.names[i as int]@ == os_id@);
            assert forall|n: Seq<char>| #[trigger] self.has(n) implies n == os_id@ || old(self).has(n) by {
                let k = choose|k: int| 0 <= k < self.names.len() && self.names[k]@ == n;
                if k < i {
                    assert(old(self).names[k]@ == n);
                }
            }
            assert forall|n: Seq<char>| #[trigger] old(self).has(n) implies self.has(n) by {
                let k = old(self).index_of(n);
                assert(self.names[k]@ == n);
            }
            assert(self.has(os_id@));
            assert forall|n: Seq<char>| #[trigger] before.contains_key(n) && n != os_id@ implies self.bindings()[n] == before[n] by {
                let k = old(self).index_of(n);
                assert(self.names[k]@ == n);
                assert(self.ports[k] == old(self).ports[k]);
            }
            assert(self.bindings() =~= before.insert(os_id@, RingState::empty()));
        }
        Ok(i)
    }

    proof fn lemma_port_updated(before: SharedRegistry, after: SharedRegistry, i: int)
        requires
            before.wf(),
            0 <= i < before.names.len(),
            after.names == before.names,
            after.regions.len() == before.regions.len(),
            after.ports.len() == before.ports.len(),
            after.ports[i]@.wf(),
            forall|j: int| 0 <= j < before.ports.len() && j != i ==> after.ports[j] == before.ports[j],
        ensures
            after.wf(),
            after.bindings() == before.bindings().insert(before.names[i]@, after.ports[i]@),
    {
        before.lemma_bindings();
        assert(after.wf());
        after.lemma_bindings();
        let name = before.names[i]@;
        assert forall|n: Seq<char>| after.has(n) == before.has(n) by {}
        assert forall|n: Seq<char>| #[trigger] before.has(n) && n != name implies after.bindings()[n]
            == before.bindings()[n] by {
            let k = before.index_of(n);
            assert(after.names[k]@ == n);
        }
        assert(after.bindings() =~= before.bindings().insert(name, after.ports[i]@));
    }

    /// Whether `os_id` is bound to a port.
    pub fn is_bound(&self, os_id: &str) -> (r: bool)
        requires
            self.wf(),
        ensures
            r == self.bindings().contains_key(os_id@),
            all_wf(self.bindings()),
    {
        proof {
            self.lemma_bindings();
        }
        self.find(os_id).is_some()
    }
}

impl QueuingPort {
    /// Enqueues `item` on the port bound to `os_id` in `registry`, binding
    /// the name first where it is not bound yet. Fails with
    /// `RegionUnavailable`, changing nothing, only where the name was not
    /// bound and its region could not be obtained.
    pub fn enqueue_shared(registry: &mut SharedRegistry, item: i32, os_id: &str) -> (r: Result<(), QueueError>)
        requires
            old(registry).wf(),
        ensures
            final(registry).wf(),
            all_wf(final(registry).bindings()),
            old(registry).bindings().contains_key(os_id@) ==> r != Err::<(), QueueError>(QueueError::RegionUnavailable),
            r == Err::<(), QueueError>(QueueError::RegionUnavailable) ==> !old(registry).bindings().contains_key(os_id@)
                && final(registry).bindings() == old(registry).bindings(),
            r != Err::<(), QueueError>(QueueError::RegionUnavailable) ==> (final(registry).bindings(), r)
                == shared_enqueue(old(registry).bindings(), os_id@, item),
    {
        let i = match registry.slot_for(os_id) {
            Ok(i) => i,
            Err(e) => {
                proof {
                    registry.lemma_bindings();
                }
                return Err(e);
            },
        };
        let ghost mid = *registry;
        let r = registry.ports[i].enqueue(item);
        proof {
            SharedRegistry::lemma_port_updated(mid, *registry, i as int);
            registry.lemma_bindings();
        }
        r
    }

    /// Dequeues from the port bound to `os_id` in `registry`, binding the
    /// name first where it is not bound yet. Fails with `RegionUnavailable`,
    /// changing nothing, only where the name was not bound and its region
    /// could not be obtained.
    pub fn dequeue_shared(registry: &mut SharedRegistry, os_id: &str) -> (r: Result<i32, QueueError>)
        requires
            old(registry).wf(),
        ensures
            final(registry).wf(),
            all_wf(final(registry).bindings()),
            old(registry).bindings().contains_key(os_id@) ==> r != Err::<i32, QueueError>(QueueError::RegionUnavailable),
            r == Err::<i32, QueueError>(QueueError::RegionUnavailable) ==> !old(registry).bindings().contains_key(os_id@)
                && final(registry).bindings() == old(registry).bindings(),
            r != Err::<i32, QueueError>(QueueError::RegionUnavailable) ==> (final(registry).bindings(), r)
                == shared_dequeue(old(registry).bindings(), os_id@),
    {
        let i = match registry.slot_for(os_id) {
            Ok(i) => i,
            Err(e) => {
                proof {
                    registry.lemma_bindings();
                }
                return Err(e);
            },
        };
        let ghost mid = *registry;
        let r = registry.ports[i].dequeue();
        proof {
            SharedRegistry::lemma_port_updated(mid, *registry, i as int);
            registry.lemma_bindings();
        }
        r
    }
}

/// Two accesses through one name reach one port: after an enqueue of `item`
/// under `name` that did not fail, a dequeue under the same name never fails
/// with `Empty`, and returns `item` where that port held nothing before.
pub proof fn lemma_shared_binding_identity(m: Map<Seq<char>, RingState>, name: Seq<char>, item: i32)
    requires
        all_wf(m),
    ensures
        shared_enqueue(m, name, item).1 is Ok ==> shared_dequeue(shared_enqueue(m, name, item).0, name).1 is Ok,
        bound_port(m, name).contents().len() == 0 ==> shared_enqueue(m, name, item).1 is Ok
            && shared_dequeue(shared_enqueue(m, name, item).0, name).1 == Ok::<i32, QueueError>(item),
{
    let p = bound_port(m, name);
    assert(p.wf());
    lemma_enqueue_contents(p, item);
    let q = p.enqueue(item).0;
    assert(bound_port(shared_enqueue(m, name, item).0, name) == q);
    lemma_dequeue_contents(q);
}

} // verus!
