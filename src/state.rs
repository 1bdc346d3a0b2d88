use vstd::prelude::*;

use crate::config::{Bootstrap, CapabilityKind, Config};

verus! {

/// One backend capability: its kind and the coordinate it connects with.
#[derive(Clone, Debug)]
pub struct Capability {
    pub kind: CapabilityKind,
    pub coordinate: String,
}

/// The shared container of every capability the service was built with.
/// Its set of capabilities is fixed once it is built.
#[derive(Clone, Debug)]
pub struct AppState {
    capabilities: Vec<Capability>,
}

#[derive(Clone, Copy, Debug, PartialEq, Eq, Structural)]
pub enum Error {
    /// A declared capability has no coordinate in the bootstrap record.
    MissingCoordinate { kind: CapabilityKind },
    /// A capability was declared more than once.
    DuplicateCapability { kind: CapabilityKind },
}

/// Where the bootstrap record gives the coordinate of a kind of capability.
pub open spec fn coordinate_of(b: Bootstrap, kind: CapabilityKind) -> Option<Seq<char>> {
    match kind {
        CapabilityKind::Database => match b.database_url {
            Some(u) => Some(u@),
            None => None,
        },
    }
}

pub open spec fn no_duplicates(kinds: Seq<CapabilityKind>) -> bool {
    forall|i: int, j: int| 0 <= i < j < kinds.len() ==> kinds[i] != kinds[j]
}

/// Every declared capability is declared once and has its coordinate.
pub open spec fn buildable(config: Config) -> bool {
    &&& no_duplicates(config.runtime.capabilities@)
    &&& forall|i: int|
        0 <= i < config.runtime.capabilities@.len() ==> coordinate_of(
            config.bootstrap,
            #[trigger] config.runtime.capabilities@[i],
        ) is Some
}

/// Why `config` cannot be built, as `e` says.
pub open spec fn build_error(config: Config, e: Error) -> bool {
    let kinds = config.runtime.capabilities@;
    match e {
        Error::MissingCoordinate { kind } => kinds.contains(kind) && coordinate_of(
            config.bootstrap,
            kind,
        ) is None,
        Error::DuplicateCapability { kind } => exists|i: int, j: int|
            0 <= i < j < kinds.len() && kinds[i] == kind && kinds[j] == kind,
    }
}

/// A container built from a configuration offers a kind of capability exactly
/// when the configuration declares it.
pub proof fn lemma_declared_capability_available(state: AppState, config: Config, kind: CapabilityKind)
    requires
        state.built_from(config),
    ensures
        state.provides(kind) <==> config.runtime.capabilities@.contains(kind),
{
}

impl AppState {
    /// The kinds of the capabilities held, in the order they were declared.
    pub closed spec fn kinds(&self) -> Seq<CapabilityKind> {
        self.capabilities@.map_values(|c: Capability| c.kind)
    }

    /// The coordinate that the capability at position `i` was built with.
    pub closed spec fn coordinate_at(&self, i: int) -> Seq<char> {
        self.capabilities@[i].coordinate@
    }

    pub open spec fn provides(&self, kind: CapabilityKind) -> bool {
        self.kinds().contains(kind)
    }

    /// The container holds exactly the capabilities that `config` declares,
    /// each with the coordinate that its bootstrap record gives.
    pub open spec fn built_from(&self, config: Config) -> bool {
        &&& self.kinds() == config.runtime.capabilities@
        &&& forall|i: int|
            0 <= i < self.kinds().len() ==> coordinate_of(config.bootstrap, self.kinds()[i])
                == Some(#[trigger] self.coordinate_at(i))
    }

    /// Builds the container from the configuration, failing on the first
    /// declared capability that is repeated or has no coordinate.
    pub fn from_config(config: &Config) -> (r: Result<AppState, Error>)
        ensures
            r is Ok <==> buildable(*config),
            match r {
                Ok(s) => s.built_from(*config),
                Err(e) => build_error(*config, e),
            },
    {
        let kinds = &config.runtime.capabilities;
        let mut caps: Vec<Capability> = Vec::new();
        let mut i: usize = 0;
        while i < kinds.len()
            invariant
                0 <= i <= kinds@.len(),
                kinds == &config.runtime.capabilities,
                caps@.len() == i,
                no_duplicates(kinds@.subrange(0, i as int)),
                forall|t: int| 0 <= t < i ==> (#[trigger] caps@[t]).kind == kinds@[t],
                forall|t: int|
                    0 <= t < i ==> coordinate_of(config.bootstrap, kinds@[t]) == Some(
                        (#[trigger] caps@[t]).coordinate@,
                    ),
            decreases kinds@.len() - i,
        {
            let k = kinds[i];
            let mut j: usize = 0;
            while j < i
                invariant
                    0 <= j <= i < kinds@.len(),
                    kinds == &config.runtime.capabilities,
                    k == kinds@[i as int],
                    forall|t: int| 0 <= t < j ==> kinds@[t] != k,
                decreases i - j,
            {
                if kinds[j] == k {
                    proof {
                        assert(kinds@[j as int] == k && kinds@[i as int] == k);
                        assert(!no_duplicates(kinds@));
                    }
                    return Err(Error::DuplicateCapability { kind: k });
                }
                j = j + 1;
            }
            let coordinate = match k {
                CapabilityKind::Database => match &config.bootstrap.database_url {
                    Some(u) => u.clone(),
                    None => {
                        proof {
                            assert(kinds@[i as int] == k);
                        }
                        return Err(Error::MissingCoordinate { kind: k });
                    },
                },
            };
            caps.push(Capability { kind: k, coordinate });
            proof {
                let p = kinds@.subrange(0, i + 1);
                assert forall|a: int, b: int| 0 <= a < b < p.len() implies p[a] != p[b] by {
                    if b < i {
                        assert(p[a] == kinds@.subrange(0, i as int)[a]);
                        assert(p[b] == kinds@.subrange(0, i as int)[b]);
                    }
                }
            }
            i = i + 1;
        }
        let s = AppState { capabilities: caps };
        proof {
            assert(s.kinds() =~= kinds@);
            assert(kinds@.subrange(0, kinds@.len() as int) =~= kinds@);
        }
        Ok(s)
    }

    /// The capability of a kind that the container is known to hold.
    pub fn capability(&self, kind: CapabilityKind) -> (r: &Capability)
        requires
            self.provides(kind),
        ensures
            r.kind == kind,
            exists|i: int|
                0 <= i < self.kinds().len() && self.kinds()[i] == kind && r.coordinate@
                    == #[trigger] self.coordinate_at(i),
    {
        let mut i: usize = 0;
        while i < self.capabilities.len()
            invariant
                0 <= i <= self.capabilities@.len(),
                self.provides(kind),
                forall|t: int| 0 <= t < i ==> self.kinds()[t] != kind,
            decreases self.capabilities@.len() - i,
        {
            if self.capabilities[i].kind == kind {
                assert(self.kinds()[i as int] == kind);
                assert(self.capabilities@[i as int].coordinate@ == self.coordinate_at(i as int));
                return &self.capabilities[i];
            }
            i = i + 1;
        }
        proof {
            let j = choose|j: int| 0 <= j < self.kinds().len() && self.kinds()[j] == kind;
            assert(self.kinds()[j] != kind);
        }
        &self.capabilities[0]
    }

    /// The capability of the given kind, when the container holds one.
    pub fn get(&self, kind: CapabilityKind) -> (r: Option<&Capability>)
        ensures
            r is Some <==> self.provides(kind),
            match r {
                Some(c) => c.kind == kind && exists|i: int|
                    0 <= i < self.kinds().len() && self.kinds()[i] == kind
                        && c.coordinate@ == #[trigger] self.coordinate_at(i),
                None => true,
            },
    {
        let mut i: usize = 0;
        while i < self.capabilities.len()
            invariant
                0 <= i <= self.capabilities@.len(),
                forall|t: int| 0 <= t < i ==> self.kinds()[t] != kind,
            decreases self.capabilities@.len() - i,
        {
            if self.capabilities[i].kind == kind {
                assert(self.kinds()[i as int] == kind);
                assert(self.capabilities@[i as int].coordinate@ == self.coordinate_at(i as int));
                return Some(&self.capabilities[i]);
            }
            i = i + 1;
        }
        None
    }
}

} // verus!
