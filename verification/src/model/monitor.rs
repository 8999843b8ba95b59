use vstd::prelude::*;
use vstd::string::*;

verus! {

/// A host that the monitor measures the network towards.
pub struct Host {
    pub id: String,
    pub name: String,
    pub domain_id: String,
}

/// The plain values of a host.
pub struct HostView {
    pub id: Seq<char>,
    pub name: Seq<char>,
    pub domain_id: Seq<char>,
}

impl View for Host {
    type V = HostView;

    open spec fn view(&self) -> HostView {
        HostView { id: self.id@, name: self.name@, domain_id: self.domain_id@ }
    }
}

/// What the monitor measures: its targets, its own host, and whether it
/// measures across domains.
pub struct MonitorConfig {
    pub targets: Vec<Host>,
    pub self_host: Host,
    pub cross_domain: bool,
}

impl MonitorConfig {
    /// A configuration with no targets, an empty own host, and no measuring
    /// across domains.
    pub fn new() -> (r: Self)
        ensures
            r.targets@.len() == 0,
            r.self_host@ == (HostView { id: Seq::empty(), name: Seq::empty(), domain_id: Seq::empty() }),
            !r.cross_domain,
    {
        MonitorConfig {
            targets: Vec::new(),
            self_host: Host { id: String::new(), name: String::new(), domain_id: String::new() },
            cross_domain: false,
        }
    }

    /// Appends targets, moving them out of `data`.
    pub fn add_targets(&mut self, data: &mut Vec<Host>)
        ensures
            final(self).targets@ == old(self).targets@ + old(data)@,
            final(data)@.len() == 0,
            final(self).self_host == old(self).self_host,
            final(self).cross_domain == old(self).cross_domain,
    {
        self.targets.append(data);
    }
}

} // verus!
