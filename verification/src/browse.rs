use crate::ports::{describes, vec_ports, ClientPortInfo, PortRecord};
use vstd::prelude::*;

verus! {

/// The detail tabs of the interactive view.
#[derive(Clone, Copy, Debug, PartialEq, Eq, Structural)]
pub enum Tab {
    Info,
    Connect,
}

/// The input events that the interactive view knows. `Other` stands for
/// every input without a meaning.
#[derive(Clone, Copy, Debug, PartialEq, Eq, Structural)]
pub enum Event {
    Next,
    Previous,
    ShowInfo,
    ShowConnect,
    Quit,
    Other,
}

/// Whether the session goes on after an event.
#[derive(Clone, Copy, Debug, PartialEq, Eq, Structural)]
pub enum Flow {
    Continue,
    Quit,
}

/// The state of the interactive view: the endpoints of the current
/// snapshot, which of them is selected, and the tab that is shown.
#[derive(Debug, PartialEq, Eq)]
pub struct App {
    ports: Vec<ClientPortInfo>,
    selected: Option<usize>,
    active_tab: Tab,
}

/// A selection fits a list of `len` endpoints when it is an index into it,
/// or empty for an empty list.
pub open spec fn fits(len: nat, selected: Option<usize>) -> bool {
    match selected {
        Some(i) => i < len,
        None => len == 0,
    }
}

/// The selection after `event`: `Next` and `Previous` step through the
/// list and wrap at its ends; nothing else moves it.
pub open spec fn selection_after(len: nat, selected: Option<usize>, event: Event) -> Option<usize> {
    match (selected, event) {
        (Some(i), Event::Next) if len > 0 => Some(((i + 1) % (len as int)) as usize),
        (Some(i), Event::Previous) if len > 0 => Some(((i - 1 + len) % (len as int)) as usize),
        _ => selected,
    }
}

/// The tab after `event`: `ShowInfo` and `ShowConnect` set it; nothing
/// else changes it.
pub open spec fn tab_after(tab: Tab, event: Event) -> Tab {
    match event {
        Event::ShowInfo => Tab::Info,
        Event::ShowConnect => Tab::Connect,
        _ => tab,
    }
}

/// The selection over a new snapshot of `len` endpoints: an index that
/// still fits stays, any other selection falls back to the first endpoint,
/// or to none where the snapshot is empty.
pub open spec fn selection_over(len: nat, selected: Option<usize>) -> Option<usize> {
    match selected {
        Some(i) if i < len => Some(i),
        _ => if len > 0 {
            Some(0)
        } else {
            None
        },
    }
}

/// A fitting selection still fits after any event.
pub proof fn lemma_selection_stays_valid(len: nat, selected: Option<usize>, event: Event)
    requires
        fits(len, selected),
    ensures
        fits(len, selection_after(len, selected, event)),
{
    if let Some(i) = selected {
        lemma_wrapped(len, i);
    }
}

/// Stepping from an index below `len` stays below `len`: forward it gives
/// the next index, or 0 from the last; backward the one before, or the
/// last from 0.
pub proof fn lemma_wrapped(len: nat, i: usize)
    requires
        i < len,
    ensures
        (i + 1) % (len as int) == (if i + 1 == len { 0 } else { i + 1 }),
        (i - 1 + len) % (len as int) == (if i == 0 { len - 1 } else { i - 1 }),
{
    let n = len as int;
    let j = i as int;
    assert((j + 1) % n == (if j + 1 == n { 0 } else { j + 1 })) by (nonlinear_arith)
        requires
            0 <= j < n,
    ;
    assert((j - 1 + n) % n == (if j == 0 { n - 1 } else { j - 1 })) by (nonlinear_arith)
        requires
            0 <= j < n,
    ;
}

/// Over a list of `len` endpoints, `Previous` from the first goes to the
/// last, and `Next` from the last goes to the first.
pub proof fn lemma_wrap_around(len: usize)
    requires
        len > 0,
    ensures
        selection_after(len as nat, Some(0), Event::Previous) == Some((len - 1) as usize),
        selection_after(len as nat, Some((len - 1) as usize), Event::Next) == Some(0usize),
{
    lemma_wrapped(len as nat, 0);
    lemma_wrapped(len as nat, (len - 1) as usize);
}

/// `ShowInfo` leaves the tab at `Info`, however often it is repeated.
pub proof fn lemma_show_info_idempotent(tab: Tab)
    ensures
        tab_after(tab, Event::ShowInfo) == Tab::Info,
        tab_after(tab_after(tab, Event::ShowInfo), Event::ShowInfo) == tab_after(
            tab,
            Event::ShowInfo,
        ),
{
}

impl App {
    /// The endpoints of the current snapshot.
    pub closed spec fn ports_view(&self) -> Seq<ClientPortInfo> {
        self.ports@
    }

    /// The selected index.
    pub closed spec fn selection(&self) -> Option<usize> {
        self.selected
    }

    /// The tab that is shown.
    pub closed spec fn tab(&self) -> Tab {
        self.active_tab
    }

    /// What every value of the type satisfies: the selection fits the
    /// snapshot.
    #[verifier::type_invariant]
    spec fn valid(self) -> bool {
        fits(self.ports@.len(), self.selected)
    }

    /// The selection is an index into the snapshot, or empty where the
    /// snapshot is.
    pub open spec fn wf(&self) -> bool {
        fits(self.ports_view().len(), self.selection())
    }

    /// The state at the start of a session: the first endpoint selected, if
    /// there is one, and the `Info` tab.
    pub fn new(records: &Vec<PortRecord>) -> (app: App)
        ensures
            app.wf(),
            app.ports_view().len() == records.len(),
            forall|i: int| 0 <= i < records.len() ==> describes(#[trigger] app.ports_view()[i], records[i]),
            app.selection() == (if records.len() > 0 {
                Some(0usize)
            } else {
                None
            }),
            app.tab() == Tab::Info,
    {
        let ports = vec_ports(records);
        let selected = if ports.len() > 0 {
            Some(0)
        } else {
            None
        };
        App { ports, selected, active_tab: Tab::Info }
    }

    /// The endpoints of the current snapshot.
    pub fn ports(&self) -> (ports: &Vec<ClientPortInfo>)
        ensures
            ports@ == self.ports_view(),
    {
        &self.ports
    }

    /// The selected index.
    pub fn selected(&self) -> (selected: Option<usize>)
        ensures
            selected == self.selection(),
    {
        self.selected
    }

    /// The tab that is shown.
    pub fn active_tab(&self) -> (tab: Tab)
        ensures
            tab == self.tab(),
    {
        self.active_tab
    }

    /// The selected endpoint.
    pub fn selected_port_info(&self) -> (info: Option<&ClientPortInfo>)
        ensures
            self.wf(),
            match self.selection() {
                Some(i) => info == Some(&self.ports_view()[i as int]),
                None => info is None,
            },
    {
        proof {
            use_type_invariant(self);
        }
        match self.selected {
            Some(i) => Some(&self.ports[i]),
            None => None,
        }
    }

    /// Replaces the snapshot by what the bus reports now. A selection that
    /// still fits stays; otherwise the first endpoint is selected, if there
    /// is one.
    pub fn refresh_ports(&mut self, records: &Vec<PortRecord>)
        ensures
            final(self).wf(),
            final(self).ports_view().len() == records.len(),
            forall|i: int|
                0 <= i < records.len() ==> describes(#[trigger] final(self).ports_view()[i], records[i]),
            final(self).selection() == selection_over(records.len() as nat, old(self).selection()),
            final(self).tab() == old(self).tab(),
    {
        let ports = vec_ports(records);
        let selected = match self.selected {
            Some(i) if i < ports.len() => Some(i),
            _ => if ports.len() > 0 {
                Some(0)
            } else {
                None
            },
        };
        *self = App { ports, selected, active_tab: self.active_tab };
    }

    /// Takes one input event: moves the selection or sets the tab, and
    /// says whether the session goes on. The snapshot stays as it is.
    pub fn handle(&mut self, event: Event) -> (flow: Flow)
        ensures
            old(self).wf(),
            final(self).wf(),
            final(self).ports_view() == old(self).ports_view(),
            final(self).selection() == selection_after(
                old(self).ports_view().len(),
                old(self).selection(),
                event,
            ),
            final(self).tab() == tab_after(old(self).tab(), event),
            flow == (if event == Event::Quit {
                Flow::Quit
            } else {
                Flow::Continue
            }),
    {
        let len = self.ports.len();
        proof {
            use_type_invariant(&*self);
            if let Some(i) = self.selected {
                lemma_wrapped(len as nat, i);
            }
        }
        match event {
            Event::Next => {
                if let Some(i) = self.selected {
                    self.selected = Some(if i + 1 == len { 0 } else { i + 1 });
                }
                Flow::Continue
            },
            Event::Previous => {
                if let Some(i) = self.selected {
                    self.selected = Some(if i == 0 { len - 1 } else { i - 1 });
                }
                Flow::Continue
            },
            Event::ShowInfo => {
                self.active_tab = Tab::Info;
                Flow::Continue
            },
            Event::ShowConnect => {
                self.active_tab = Tab::Connect;
                Flow::Continue
            },
            Event::Quit => Flow::Quit,
            Event::Other => Flow::Continue,
        }
    }
}

} // verus!
