use vstd::prelude::*;

verus! {

/// One configured service, immutable once loaded.
pub struct ServiceConfig {
    pub name: String,
    pub description: Option<String>,
    pub cmdline: String,
}

/// The loaded configuration: the services in manifest order.
pub struct SimaConfig {
    pub services: Vec<ServiceConfig>,
}

/// Why a set of service files does not form a configuration.
#[derive(Debug, PartialEq, Eq, Structural, Clone, Copy)]
pub enum ConfigError {
    /// The service at this position has an empty name.
    EmptyName(usize),
    /// The service at this position repeats the name of an earlier one.
    DuplicateName(usize),
}

/// The names of a list of services, in order.
pub open spec fn names_of(services: Seq<ServiceConfig>) -> Seq<Seq<char>> {
    services.map_values(|c: ServiceConfig| c.name@)
}

/// The command lines of a list of services, in order.
pub open spec fn cmdlines_of(services: Seq<ServiceConfig>) -> Seq<Seq<char>> {
    services.map_values(|c: ServiceConfig| c.cmdline@)
}

/// No two positions carry the same name.
pub open spec fn unique_names(names: Seq<Seq<char>>) -> bool {
    forall|i: int, j: int| 0 <= i < names.len() && 0 <= j < names.len() && i != j
        ==> names[i] != names[j]
}

/// Every name is non-empty and no name repeats.
pub open spec fn valid_services(services: Seq<ServiceConfig>) -> bool {
    &&& forall|i: int| 0 <= i < services.len() ==> services[i].name@.len() > 0
    &&& unique_names(names_of(services))
}

impl SimaConfig {
    pub open spec fn wf(&self) -> bool {
        valid_services(self.services@)
    }

    /// Builds a configuration from service files read in manifest order,
    /// refusing an empty name and a name that appears twice.
    pub fn from_services(services: Vec<ServiceConfig>) -> (r: Result<SimaConfig, ConfigError>)
        ensures
            r is Ok <==> valid_services(services@),
            r matches Ok(c) ==> c.services@ == services@ && c.wf(),
            r matches Err(ConfigError::EmptyName(i)) ==> i < services@.len()
                && services@[i as int].name@.len() == 0,
            r matches Err(ConfigError::DuplicateName(j)) ==> j < services@.len() && exists|i: int|
                0 <= i < j && services@[i].name@ == services@[j as int].name@,
    {
        let mut j: usize = 0;
        while j < services.len()
            invariant
                j <= services@.len(),
                forall|k: int| 0 <= k < j ==> services@[k].name@.len() > 0,
                forall|a: int, b: int| 0 <= a < j && 0 <= b < j && a != b
                    ==> services@[a].name@ != services@[b].name@,
            decreases services@.len() - j,
        {
            if services[j].name.as_str().is_empty() {
                proof {
                    assert(services@[j as int].name@.len() == 0);
                }
                return Err(ConfigError::EmptyName(j));
            }
            let mut i: usize = 0;
            while i < j
                invariant
                    i <= j < services@.len(),
                    forall|k: int| 0 <= k < i ==> services@[k].name@ != services@[j as int].name@,
                decreases j - i,
            {
                if services[i].name == services[j].name {
                    proof {
                        let names = names_of(services@);
                        assert(names[i as int] == services@[i as int].name@);
                        assert(names[j as int] == services@[j as int].name@);
                    }
                    return Err(ConfigError::DuplicateName(j));
                }
                i = i + 1;
            }
            j = j + 1;
        }
        proof {
            let names = names_of(services@);
            assert forall|a: int, b: int| 0 <= a < names.len() && 0 <= b < names.len() && a != b
                implies names[a] != names[b] by {
                assert(names[a] == services@[a].name@);
                assert(names[b] == services@[b].name@);
            }
        }
        Ok(SimaConfig { services })
    }
}

} // verus!
