use crate::config::{names_view, routes_wf, Config, RouteView};
use vstd::prelude::*;

verus! {

/// The address of an endpoint on the bus.
#[derive(Clone, Copy, Debug, PartialEq, Eq, Structural)]
pub struct Addr {
    pub client: i32,
    pub port: i32,
}

/// What the bus reports of one port: the ids, the capability bits, and the
/// two names where the bus could give them.
#[derive(Clone, Debug, PartialEq, Eq)]
pub struct PortRecord {
    pub client_id: i32,
    pub client_name: Option<String>,
    pub port_id: i32,
    pub port_name: Option<String>,
    pub port_cap: u32,
}

/// One endpoint of a snapshot.
#[derive(Clone, Debug, PartialEq, Eq)]
pub struct ClientPortInfo {
    pub client_name: String,
    pub client_id: i32,
    pub port_name: String,
    pub port_id: i32,
    pub port_cap: u32,
}

/// A display name with the address it stands for.
#[derive(Clone, Debug, PartialEq, Eq)]
pub struct PortEntry {
    pub name: String,
    pub addr: Addr,
}

/// A snapshot of the endpoints, in the order in which the bus listed them.
/// Of two entries with one name, or with one address, the later one counts.
#[derive(Clone, Debug, PartialEq, Eq)]
pub struct Catalog {
    pub entries: Vec<PortEntry>,
}

/// The name shown for a client: its own, or a placeholder where the bus
/// gave none.
pub open spec fn client_label(name: Option<String>) -> Seq<char> {
    match name {
        Some(s) => s@,
        None => "Unknown Client"@,
    }
}

/// The name shown for a port: its own, or a placeholder where the bus gave
/// none.
pub open spec fn port_label(name: Option<String>) -> Seq<char> {
    match name {
        Some(s) => s@,
        None => "Unknown Port"@,
    }
}

/// The display name of an endpoint: client name, a colon, port name.
pub open spec fn compose(client: Seq<char>, port: Seq<char>) -> Seq<char> {
    client + seq![':'] + port
}

/// The display name of the endpoint that `r` reports.
pub open spec fn record_name(r: PortRecord) -> Seq<char> {
    compose(client_label(r.client_name), port_label(r.port_name))
}

/// The address of the endpoint that `r` reports.
pub open spec fn record_addr(r: PortRecord) -> Addr {
    Addr { client: r.client_id, port: r.port_id }
}

/// Whether `info` is the endpoint that `r` reports.
pub open spec fn describes(info: ClientPortInfo, r: PortRecord) -> bool {
    &&& info.client_name@ == client_label(r.client_name)
    &&& info.client_id == r.client_id
    &&& info.port_name@ == port_label(r.port_name)
    &&& info.port_id == r.port_id
    &&& info.port_cap == r.port_cap
}

/// The greatest index below `n` whose entry is called `name`, or -1.
pub open spec fn last_named(entries: Seq<PortEntry>, name: Seq<char>, n: int) -> int
    decreases n,
{
    if n <= 0 || n > entries.len() {
        -1
    } else if entries[n - 1].name@ == name {
        n - 1
    } else {
        last_named(entries, name, n - 1)
    }
}

/// The greatest index below `n` whose entry has the address `addr`, or -1.
pub open spec fn last_at(entries: Seq<PortEntry>, addr: Addr, n: int) -> int
    decreases n,
{
    if n <= 0 || n > entries.len() {
        -1
    } else if entries[n - 1].addr == addr {
        n - 1
    } else {
        last_at(entries, addr, n - 1)
    }
}

/// `last_named` is -1 exactly when no entry below `n` is called `name`;
/// otherwise it is the index of such an entry, and no later one below `n`
/// has the name.
pub proof fn lemma_last_named(entries: Seq<PortEntry>, name: Seq<char>, n: int)
    requires
        0 <= n <= entries.len(),
    ensures
        -1 <= last_named(entries, name, n) < n,
        last_named(entries, name, n) >= 0 ==> entries[last_named(entries, name, n)].name@ == name,
        forall|k: int|
            last_named(entries, name, n) < k < n ==> (#[trigger] entries[k]).name@ != name,
    decreases n,
{
    if n > 0 && entries[n - 1].name@ != name {
        lemma_last_named(entries, name, n - 1);
    }
}

/// `last_at` is -1 exactly when no entry below `n` has the address `addr`;
/// otherwise it is the index of such an entry, and no later one below `n`
/// has the address.
pub proof fn lemma_last_at(entries: Seq<PortEntry>, addr: Addr, n: int)
    requires
        0 <= n <= entries.len(),
    ensures
        -1 <= last_at(entries, addr, n) < n,
        last_at(entries, addr, n) >= 0 ==> entries[last_at(entries, addr, n)].addr == addr,
        forall|k: int| last_at(entries, addr, n) < k < n ==> (#[trigger] entries[k]).addr != addr,
    decreases n,
{
    if n > 0 && entries[n - 1].addr != addr {
        lemma_last_at(entries, addr, n - 1);
    }
}

/// A name is in the catalog exactly when some entry carries it, and it then
/// stands for the address of the last such entry: of two endpoints with one
/// name the one seen last wins.
pub proof fn lemma_last_seen_wins(catalog: Catalog, name: Seq<char>)
    ensures
        catalog.names().contains_key(name) <==> exists|i: int|
            0 <= i < catalog.entries@.len() && (#[trigger] catalog.entries@[i]).name@ == name,
        forall|i: int|
            0 <= i < catalog.entries@.len() && (#[trigger] catalog.entries@[i]).name@ == name && (
            forall|k: int| i < k < catalog.entries@.len() ==> (#[trigger] catalog.entries@[k]).name@ != name)
                ==> catalog.names()[name] == catalog.entries@[i].addr,
{
    lemma_last_named(catalog.entries@, name, catalog.entries@.len() as int);
}

/// An address is in the catalog exactly when some entry has it, and its
/// name is then that of the last such entry.
pub proof fn lemma_reverse_lookup(catalog: Catalog, addr: Addr)
    ensures
        catalog.addrs().contains_key(addr) <==> exists|i: int|
            0 <= i < catalog.entries@.len() && (#[trigger] catalog.entries@[i]).addr == addr,
        forall|i: int|
            0 <= i < catalog.entries@.len() && (#[trigger] catalog.entries@[i]).addr == addr && (
            forall|k: int| i < k < catalog.entries@.len() ==> (#[trigger] catalog.entries@[k]).addr != addr)
                ==> catalog.addrs()[addr] == catalog.entries@[i].name@,
{
    lemma_last_at(catalog.entries@, addr, catalog.entries@.len() as int);
}

impl Catalog {
    /// The mapping from display name to address.
    pub open spec fn names(&self) -> Map<Seq<char>, Addr> {
        Map::new(
            |name: Seq<char>| last_named(self.entries@, name, self.entries@.len() as int) >= 0,
            |name: Seq<char>|
                self.entries@[last_named(self.entries@, name, self.entries@.len() as int)].addr,
        )
    }

    /// The mapping from address back to display name.
    pub open spec fn addrs(&self) -> Map<Addr, Seq<char>> {
        Map::new(
            |addr: Addr| last_at(self.entries@, addr, self.entries@.len() as int) >= 0,
            |addr: Addr|
                self.entries@[last_at(self.entries@, addr, self.entries@.len() as int)].name@,
        )
    }

    /// The address that `name` stands for.
    pub fn addr_of(&self, name: &String) -> (found: Option<Addr>)
        ensures
            found == (if self.names().contains_key(name@) {
                Some(self.names()[name@])
            } else {
                None
            }),
    {
        let mut i: usize = self.entries.len();
        while i > 0
            invariant
                i <= self.entries.len(),
                last_named(self.entries@, name@, self.entries@.len() as int) == last_named(
                    self.entries@,
                    name@,
                    i as int,
                ),
            decreases i,
        {
            if self.entries[i - 1].name == *name {
                return Some(self.entries[i - 1].addr);
            }
            i -= 1;
        }
        None
    }

    /// The display name of the endpoint at `addr`.
    pub fn name_of(&self, addr: Addr) -> (found: Option<String>)
        ensures
            match found {
                Some(name) => self.addrs().contains_key(addr) && name@ == self.addrs()[addr],
                None => !self.addrs().contains_key(addr),
            },
    {
        let mut i: usize = self.entries.len();
        while i > 0
            invariant
                i <= self.entries.len(),
                last_at(self.entries@, addr, self.entries@.len() as int) == last_at(
                    self.entries@,
                    addr,
                    i as int,
                ),
            decreases i,
        {
            if self.entries[i - 1].addr == addr {
                return Some(self.entries[i - 1].name.clone());
            }
            i -= 1;
        }
        None
    }
}

impl ClientPortInfo {
    /// The endpoint that `record` reports, with a placeholder for each name
    /// that the bus did not give.
    pub fn from_record(record: &PortRecord) -> (info: ClientPortInfo)
        ensures
            describes(info, *record),
    {
        let client_name = match &record.client_name {
            Some(s) => s.clone(),
            None => String::from_str("Unknown Client"),
        };
        let port_name = match &record.port_name {
            Some(s) => s.clone(),
            None => String::from_str("Unknown Port"),
        };
        ClientPortInfo {
            client_name,
            client_id: record.client_id,
            port_name,
            port_id: record.port_id,
            port_cap: record.port_cap,
        }
    }

    /// The display name: client name, a colon, port name.
    pub fn display_name(&self) -> (name: String)
        ensures
            name@ == compose(self.client_name@, self.port_name@),
    {
        let mut name = self.client_name.clone();
        proof {
            reveal_strlit(":");
        }
        name.append(":");
        assert(":"@ =~= seq![':']);
        name.append(self.port_name.as_str());
        name
    }

    /// The address of the endpoint.
    pub fn addr(&self) -> (addr: Addr)
        ensures
            addr == (Addr { client: self.client_id, port: self.port_id }),
    {
        Addr { client: self.client_id, port: self.port_id }
    }
}

/// The endpoints that the bus reported, one for each record and in the
/// same order.
pub fn vec_ports(records: &Vec<PortRecord>) -> (ports: Vec<ClientPortInfo>)
    ensures
        ports.len() == records.len(),
        forall|i: int| 0 <= i < records.len() ==> describes(#[trigger] ports[i], records[i]),
{
    let mut ports: Vec<ClientPortInfo> = Vec::new();
    let mut i: usize = 0;
    while i < records.len()
        invariant
            i <= records.len(),
            ports.len() == i,
            forall|k: int| 0 <= k < i ==> describes(#[trigger] ports[k], records[k]),
        decreases records.len() - i,
    {
        ports.push(ClientPortInfo::from_record(&records[i]));
        i += 1;
    }
    ports
}

/// The catalog of what the bus reported: one entry for each record, in the
/// same order, with the composed display name and the address.
pub fn list_ports(records: &Vec<PortRecord>) -> (catalog: Catalog)
    ensures
        catalog.entries.len() == records.len(),
        forall|i: int|
            0 <= i < records.len() ==> {
                &&& (#[trigger] catalog.entries[i]).name@ == record_name(records[i])
                &&& catalog.entries[i].addr == record_addr(records[i])
            },
{
    let mut entries: Vec<PortEntry> = Vec::new();
    let mut i: usize = 0;
    while i < records.len()
        invariant
            i <= records.len(),
            entries.len() == i,
            forall|k: int|
                0 <= k < i ==> {
                    &&& (#[trigger] entries[k]).name@ == record_name(records[k])
                    &&& entries[k].addr == record_addr(records[k])
                },
        decreases records.len() - i,
    {
        let info = ClientPortInfo::from_record(&records[i]);
        entries.push(PortEntry { name: info.display_name(), addr: info.addr() });
        i += 1;
    }
    Catalog { entries }
}

/// The names of the endpoints at `senders`, in order; a sender that the
/// catalog does not hold is left out.
pub open spec fn sender_names(addrs: Map<Addr, Seq<char>>, senders: Seq<Addr>) -> Seq<Seq<char>>
    decreases senders.len(),
{
    if senders.len() == 0 {
        Seq::empty()
    } else {
        let rest = sender_names(addrs, senders.drop_last());
        if addrs.contains_key(senders.last()) {
            rest.push(addrs[senders.last()])
        } else {
            rest
        }
    }
}

/// The display names of the endpoints that send to the selected one, given
/// the addresses that the bus reported for its incoming subscriptions.
pub fn connected_names(catalog: &Catalog, senders: &Vec<Addr>) -> (names: Vec<String>)
    ensures
        names_view(names@) == sender_names(catalog.addrs(), senders@),
{
    let mut names: Vec<String> = Vec::new();
    let mut i: usize = 0;
    assert(names_view(names@) =~= sender_names(catalog.addrs(), senders@.take(0)));
    while i < senders.len()
        invariant
            i <= senders.len(),
            names_view(names@) == sender_names(
                catalog.addrs(),
                senders@.take(i as int),
            ),
        decreases senders.len() - i,
    {
        let ghost before = names@;
        assert(senders@.take(i + 1).drop_last() =~= senders@.take(i as int));
        match catalog.name_of(senders[i]) {
            Some(name) => {
                names.push(name);
                assert(names_view(names@) =~= names_view(
                    before,
                ).push(name@));
            },
            None => {},
        }
        i += 1;
    }
    assert(senders@.take(senders.len() as int) =~= senders@);
    names
}

/// One step of applying a configuration.
#[derive(Clone, Debug, PartialEq, Eq)]
pub enum RouteStep {
    /// The source is not in the catalog: its destinations are passed over.
    SourceMissing(String),
    /// The destination is not in the catalog.
    DestMissing(String, String),
    /// Both names are known: a subscription from `sender` to `dest_addr` is
    /// to be asked of the bus.
    Subscribe { source: String, dest: String, sender: Addr, dest_addr: Addr },
}

/// What became of one step.
#[derive(Clone, Debug, PartialEq, Eq)]
pub enum RouteResult {
    SourceMissing(String),
    DestMissing(String, String),
    Connected(String, String),
    Failed(String, String, String),
}

/// What a `RouteStep` stands for.
pub enum StepView {
    SourceMissing(Seq<char>),
    DestMissing(Seq<char>, Seq<char>),
    Subscribe(Seq<char>, Seq<char>, Addr, Addr),
}

impl View for RouteStep {
    type V = StepView;

    open spec fn view(&self) -> StepView {
        match *self {
            RouteStep::SourceMissing(s) => StepView::SourceMissing(s@),
            RouteStep::DestMissing(s, d) => StepView::DestMissing(s@, d@),
            RouteStep::Subscribe { source, dest, sender, dest_addr } => StepView::Subscribe(
                source@,
                dest@,
                sender,
                dest_addr,
            ),
        }
    }
}

/// The views of a sequence of steps.
pub open spec fn steps_view(steps: Seq<RouteStep>) -> Seq<StepView> {
    steps.map_values(|s: RouteStep| s@)
}

/// The step for one destination of a source that the catalog holds.
pub open spec fn plan_dest(names: Map<Seq<char>, Addr>, source: Seq<char>, dest: Seq<char>) -> StepView {
    if names.contains_key(dest) {
        StepView::Subscribe(source, dest, names[source], names[dest])
    } else {
        StepView::DestMissing(source, dest)
    }
}

/// The steps for one route: a single step where the source is missing,
/// else one step for each destination, in order.
pub open spec fn plan_route(names: Map<Seq<char>, Addr>, route: RouteView) -> Seq<StepView> {
    if names.contains_key(route.source) {
        route.dests.map_values(|d: Seq<char>| plan_dest(names, route.source, d))
    } else {
        seq![StepView::SourceMissing(route.source)]
    }
}

/// The steps for `routes`, route after route.
pub open spec fn plan_routes(names: Map<Seq<char>, Addr>, routes: Seq<RouteView>) -> Seq<StepView>
    decreases routes.len(),
{
    if routes.len() == 0 {
        Seq::empty()
    } else {
        plan_routes(names, routes.drop_last()) + plan_route(names, routes.last())
    }
}

/// What a step comes to, given the bus's reply to its request. The reply
/// counts for a `Subscribe` step only.
pub open spec fn outcome(step: RouteStep, reply: Result<(), String>) -> RouteResult {
    match step {
        RouteStep::SourceMissing(s) => RouteResult::SourceMissing(s),
        RouteStep::DestMissing(s, d) => RouteResult::DestMissing(s, d),
        RouteStep::Subscribe { source, dest, sender, dest_addr } => match reply {
            Ok(_) => RouteResult::Connected(source, dest),
            Err(reason) => RouteResult::Failed(source, dest, reason),
        },
    }
}

/// Resolves the names of `config` against `ports` and lists what is to be
/// done, in the order of the configuration. A missing source is reported
/// once, whatever the number of its destinations.
pub fn connect_ports(config: &Config, ports: &Catalog) -> (steps: Vec<RouteStep>)
    ensures
        steps_view(steps@) == plan_routes(ports.names(), config@.connections),
{
    let mut steps: Vec<RouteStep> = Vec::new();
    let ghost names = ports.names();
    let ghost routes = config@.connections;
    let mut i: usize = 0;
    assert(steps_view(steps@) =~= plan_routes(names, routes.take(0)));
    while i < config.connections.len()
        invariant
            i <= config.connections.len(),
            names == ports.names(),
            routes == config@.connections,
            routes.len() == config.connections.len(),
            steps_view(steps@) == plan_routes(names, routes.take(i as int)),
        decreases config.connections.len() - i,
    {
        let route = &config.connections[i];
        let ghost done = steps_view(steps@);
        assert(routes.take(i + 1).drop_last() =~= routes.take(i as int));
        assert(routes.take(i + 1).last() == route@);
        match ports.addr_of(&route.source) {
            Some(sender) => {
                let mut k: usize = 0;
                assert(steps_view(steps@) =~= done + plan_route(
                    names,
                    RouteView { source: route@.source, dests: route@.dests.take(0) },
                ));
                while k < route.dests.len()
                    invariant
                        k <= route.dests.len(),
                        names == ports.names(),
                        names.contains_key(route@.source),
                        sender == names[route@.source],
                        steps_view(steps@) == done + plan_route(
                            names,
                            RouteView { source: route@.source, dests: route@.dests.take(k as int) },
                        ),
                    decreases route.dests.len() - k,
                {
                    let dest = &route.dests[k];
                    let ghost before = steps@;
                    let step = match ports.addr_of(dest) {
                        Some(dest_addr) => RouteStep::Subscribe {
                            source: route.source.clone(),
                            dest: dest.clone(),
                            sender,
                            dest_addr,
                        },
                        None => RouteStep::DestMissing(route.source.clone(), dest.clone()),
                    };
                    assert(step@ == plan_dest(names, route@.source, route@.dests[k as int]));
                    steps.push(step);
                    assert(steps_view(steps@) =~= steps_view(before).push(step@));
                    assert(steps_view(steps@) =~= done + plan_route(
                        names,
                        RouteView { source: route@.source, dests: route@.dests.take(k + 1) },
                    ));
                    k += 1;
                }
                assert(route@.dests.take(route.dests.len() as int) =~= route@.dests);
            },
            None => {
                let ghost before = steps@;
                let step = RouteStep::SourceMissing(route.source.clone());
                steps.push(step);
                assert(steps_view(steps@) =~= steps_view(before).push(step@));
                assert(steps_view(steps@) =~= done + plan_route(names, route@));
            },
        }
        i += 1;
    }
    assert(routes.take(config.connections.len() as int) =~= routes);
    steps
}

/// Turns a step and the bus's reply to it into the result to report.
pub fn settle(step: RouteStep, reply: Result<(), String>) -> (result: RouteResult)
    ensures
        result == outcome(step, reply),
{
    match step {
        RouteStep::SourceMissing(s) => RouteResult::SourceMissing(s),
        RouteStep::DestMissing(s, d) => RouteResult::DestMissing(s, d),
        RouteStep::Subscribe { source, dest, sender, dest_addr } => match reply {
            Ok(_) => RouteResult::Connected(source, dest),
            Err(reason) => RouteResult::Failed(source, dest, reason),
        },
    }
}

/// Against a catalog that holds none of the sources, a configuration comes
/// to one `SourceMissing` step for each route, in order; with the sources
/// of a well-formed configuration distinct, that is one for each source
/// name. No such step asks anything of the bus, and whatever reply is put
/// beside it, its result is `SourceMissing`.
pub proof fn lemma_unknown_sources(names: Map<Seq<char>, Addr>, routes: Seq<RouteView>)
    requires
        forall|i: int| 0 <= i < routes.len() ==> !names.contains_key((#[trigger] routes[i]).source),
    ensures
        plan_routes(names, routes).len() == routes.len(),
        forall|i: int|
            0 <= i < routes.len() ==> (#[trigger] plan_routes(names, routes)[i])
                == StepView::SourceMissing(routes[i].source),
        forall|i: int, step: RouteStep, reply: Result<(), String>|
            0 <= i < routes.len() && step@ == (#[trigger] plan_routes(names, routes)[i])
                ==> #[trigger] outcome(step, reply) is SourceMissing,
        routes_wf(routes) ==> forall|i: int, j: int|
            0 <= i < j < routes.len() ==> (#[trigger] plan_routes(names, routes)[i])
                != (#[trigger] plan_routes(names, routes)[j]),
    decreases routes.len(),
{
    if routes.len() > 0 {
        let front = routes.drop_last();
        assert forall|i: int| 0 <= i < front.len() implies !names.contains_key(
            (#[trigger] front[i]).source,
        ) by {
            assert(front[i] == routes[i]);
        }
        lemma_unknown_sources(names, front);
        assert(plan_route(names, routes.last()) =~= seq![
            StepView::SourceMissing(routes.last().source),
        ]);
        assert forall|i: int| 0 <= i < routes.len() implies (#[trigger] plan_routes(names, routes)[i])
            == StepView::SourceMissing(routes[i].source) by {
            if i < front.len() {
                assert(front[i] == routes[i]);
                assert(plan_routes(names, routes)[i] == plan_routes(names, front)[i]);
            }
        }
    }
}

} // verus!
