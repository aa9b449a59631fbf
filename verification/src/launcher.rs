//! The decisions of the supervisor that keeps the applications of a node
//! running: which applications are registered, and what is to be done on
//! each event under the one-for-one policy. Whoever runs the loop performs
//! what a decision asks for, and keeps the handles of the applications and
//! dashboards by their names.
//!
//! The policy sets no limit to restarts: an application that keeps shutting
//! down unasked is started again every time.

use crate::names::{
    clone_names, distinct, lemma_names_push, lemma_names_remove, lemma_with_without, names_of,
    position, with, without,
};
use vstd::prelude::*;

verus! {

/// An event of the supervisor.
#[derive(Debug, Clone, PartialEq, Eq)]
pub enum Event {
    /// Start the application with this name.
    StartApp(String),
    /// Shut the application with this name down.
    ShutdownApp(String),
    /// The application with this name has shut down.
    AknShutdown(String),
    /// The application with this name runs and can be told to shut down.
    RegisterApp(String),
    /// The dashboard with this name wants to hear of the applications.
    RegisterDashboard(String),
    /// The dashboard with this name asks for the status of the applications.
    /// Not served yet.
    AppsStatus(String),
    /// End the loop of the supervisor.
    Break,
}

/// What is to be done on an event.
#[derive(Debug, Clone, PartialEq, Eq)]
pub enum Reaction {
    /// Nothing.
    Idle,
    /// Tell the dashboards that the application has started.
    Started { app: String, dashboards: Vec<String> },
    /// Build the application and run it, then tell the dashboards that it
    /// has started.
    Start { app: String, dashboards: Vec<String> },
    /// Give up the handle of the application and tell the application through
    /// it to shut down.
    Shutdown { app: String },
    /// Tell the dashboards that the application has shut down.
    Stopped { app: String, dashboards: Vec<String> },
    /// Leave the loop.
    Break,
}

/// A reaction, with its names as sequences of characters.
pub ghost enum ReactionView {
    Idle,
    Started { app: Seq<char>, dashboards: Seq<Seq<char>> },
    Start { app: Seq<char>, dashboards: Seq<Seq<char>> },
    Shutdown { app: Seq<char> },
    Stopped { app: Seq<char>, dashboards: Seq<Seq<char>> },
    Break,
}

impl View for Reaction {
    type V = ReactionView;

    open spec fn view(&self) -> ReactionView {
        match *self {
            Reaction::Idle => ReactionView::Idle,
            Reaction::Started { app, dashboards } => ReactionView::Started {
                app: app@,
                dashboards: names_of(dashboards@),
            },
            Reaction::Start { app, dashboards } => ReactionView::Start {
                app: app@,
                dashboards: names_of(dashboards@),
            },
            Reaction::Shutdown { app } => ReactionView::Shutdown { app: app@ },
            Reaction::Stopped { app, dashboards } => ReactionView::Stopped {
                app: app@,
                dashboards: names_of(dashboards@),
            },
            Reaction::Break => ReactionView::Break,
        }
    }
}

/// The applications of a node under supervision.
#[derive(Debug)]
pub struct Apps {
    /// The names of the applications that the node is made of, in the order
    /// in which they start.
    declared: Vec<String>,
    /// The names of the applications that are registered; none twice.
    apps: Vec<String>,
    /// The names of the dashboards that are registered; none twice.
    dashboards: Vec<String>,
}

/// What an `Apps` holds.
pub ghost struct AppsView {
    pub declared: Seq<Seq<char>>,
    pub apps: Seq<Seq<char>>,
    pub dashboards: Seq<Seq<char>>,
}

impl View for Apps {
    type V = AppsView;

    closed spec fn view(&self) -> AppsView {
        AppsView {
            declared: names_of(self.declared@),
            apps: names_of(self.apps@),
            dashboards: names_of(self.dashboards@),
        }
    }
}

impl AppsView {
    /// No name occurs twice in a list.
    pub open spec fn wf(self) -> bool {
        distinct(self.declared) && distinct(self.apps) && distinct(self.dashboards)
    }

    /// Whether the application `name` is registered.
    pub open spec fn registered(self, name: Seq<char>) -> bool {
        self.apps.contains(name)
    }

    /// Whether the supervisor can serve the event: the status of the
    /// applications cannot be asked for yet, and only an application that the
    /// node is made of can be started, on request or after it has shut down
    /// unasked.
    pub open spec fn serves(self, event: Event) -> bool {
        match event {
            Event::AppsStatus(_) => false,
            Event::StartApp(name) => self.declared.contains(name@),
            Event::AknShutdown(name) => self.registered(name@) ==> self.declared.contains(name@),
            _ => true,
        }
    }

    /// The applications after the event.
    pub open spec fn next(self, event: Event) -> AppsView {
        match event {
            Event::RegisterApp(name) => AppsView { apps: with(self.apps, name@), ..self },
            Event::RegisterDashboard(name) => AppsView {
                dashboards: with(self.dashboards, name@),
                ..self
            },
            Event::ShutdownApp(name) => AppsView { apps: without(self.apps, name@), ..self },
            _ => self,
        }
    }

    /// What is to be done on the event. An application that reports that it
    /// has shut down while it is registered was not asked to: it is started
    /// again. One that is not registered was asked to, and has done it.
    pub open spec fn reaction(self, event: Event) -> ReactionView {
        match event {
            Event::RegisterApp(name) => ReactionView::Started {
                app: name@,
                dashboards: self.dashboards,
            },
            Event::StartApp(name) => ReactionView::Start { app: name@, dashboards: self.dashboards },
            Event::ShutdownApp(name) => if self.registered(name@) {
                ReactionView::Shutdown { app: name@ }
            } else {
                ReactionView::Idle
            },
            Event::AknShutdown(name) => if self.registered(name@) {
                ReactionView::Start { app: name@, dashboards: self.dashboards }
            } else {
                ReactionView::Stopped { app: name@, dashboards: self.dashboards }
            },
            Event::Break => ReactionView::Break,
            _ => ReactionView::Idle,
        }
    }

    /// The applications after the events, one after the other.
    pub open spec fn run(self, events: Seq<Event>) -> AppsView
        decreases events.len(),
    {
        if events.len() == 0 {
            self
        } else {
            self.run(events.drop_last()).next(events.last())
        }
    }
}

/// Whether the event asks the application `name` to shut down.
pub open spec fn asks_shutdown(event: Event, name: Seq<char>) -> bool {
    event matches Event::ShutdownApp(app) && app@ == name
}

/// Whether the event registers the application `name`.
pub open spec fn registers(event: Event, name: Seq<char>) -> bool {
    event matches Event::RegisterApp(app) && app@ == name
}

/// An event keeps the registry well formed. It leaves an application
/// registered unless it asks that one to shut down, and unregistered unless
/// it registers that one.
pub proof fn lemma_next(apps: AppsView, event: Event, name: Seq<char>)
    requires
        apps.wf(),
    ensures
        apps.next(event).wf(),
        apps.next(event).declared == apps.declared,
        apps.registered(name) && !asks_shutdown(event, name) ==> apps.next(event).registered(name),
        !apps.registered(name) && !registers(event, name) ==> !apps.next(event).registered(name),
        registers(event, name) ==> apps.next(event).registered(name),
        asks_shutdown(event, name) ==> !apps.next(event).registered(name),
{
    match event {
        Event::RegisterApp(app) => lemma_with_without(apps.apps, app@),
        Event::RegisterDashboard(dashboard) => lemma_with_without(apps.dashboards, dashboard@),
        Event::ShutdownApp(app) => lemma_with_without(apps.apps, app@),
        _ => {},
    }
}

/// The same of a run of events: an application that is registered stays so
/// as long as no event asks it to shut down, and one that is not registered
/// stays so as long as no event registers it.
pub proof fn lemma_run(apps: AppsView, events: Seq<Event>, name: Seq<char>)
    requires
        apps.wf(),
    ensures
        apps.run(events).wf(),
        apps.run(events).declared == apps.declared,
        apps.registered(name) && (forall|i: int|
            0 <= i < events.len() ==> !asks_shutdown(#[trigger] events[i], name)) ==> apps.run(
            events,
        ).registered(name),
        !apps.registered(name) && (forall|i: int|
            0 <= i < events.len() ==> !registers(#[trigger] events[i], name)) ==> !apps.run(
            events,
        ).registered(name),
    decreases events.len(),
{
    if events.len() > 0 {
        let before = events.drop_last();
        lemma_run(apps, before, name);
        lemma_next(apps.run(before), events.last(), name);
        assert forall|i: int| 0 <= i < before.len() implies before[i] == events[i] by {}
        if forall|i: int| 0 <= i < events.len() ==> !asks_shutdown(#[trigger] events[i], name) {
            assert forall|i: int| 0 <= i < before.len() implies !asks_shutdown(
                #[trigger] before[i],
                name,
            ) by {
                assert(before[i] == events[i]);
            }
            assert(!asks_shutdown(events[events.len() - 1], name));
        }
        if forall|i: int| 0 <= i < events.len() ==> !registers(#[trigger] events[i], name) {
            assert forall|i: int| 0 <= i < before.len() implies !registers(
                #[trigger] before[i],
                name,
            ) by {
                assert(before[i] == events[i]);
            }
            assert(!registers(events[events.len() - 1], name));
        }
    }
}

/// One for one: an application that was registered and reports that it has
/// shut down, with no request to shut it down in between, is started again
/// and stays registered.
pub proof fn lemma_unrequested_shutdown_restarts(apps: AppsView, name: String, between: Seq<Event>)
    requires
        apps.wf(),
        forall|i: int| 0 <= i < between.len() ==> !asks_shutdown(#[trigger] between[i], name@),
    ensures
        ({
            let state = apps.next(Event::RegisterApp(name)).run(between);
            &&& state.reaction(Event::AknShutdown(name)) == ReactionView::Start {
                app: name@,
                dashboards: state.dashboards,
            }
            &&& state.next(Event::AknShutdown(name)).registered(name@)
        }),
{
    let registered = apps.next(Event::RegisterApp(name));
    lemma_next(apps, Event::RegisterApp(name), name@);
    lemma_run(registered, between, name@);
}

/// One for one: an application that was asked to shut down and reports that
/// it has, without having registered again in between, is not started again:
/// the dashboards hear that it has shut down, and it stays unregistered.
pub proof fn lemma_requested_shutdown_stops(apps: AppsView, name: String, between: Seq<Event>)
    requires
        apps.wf(),
        forall|i: int| 0 <= i < between.len() ==> !registers(#[trigger] between[i], name@),
    ensures
        ({
            let state = apps.next(Event::ShutdownApp(name)).run(between);
            &&& state.reaction(Event::AknShutdown(name)) == ReactionView::Stopped {
                app: name@,
                dashboards: state.dashboards,
            }
            &&& !state.next(Event::AknShutdown(name)).registered(name@)
        }),
{
    let stopped = apps.next(Event::ShutdownApp(name));
    lemma_next(apps, Event::ShutdownApp(name), name@);
    lemma_run(stopped, between, name@);
}

impl Apps {
    /// The applications of a node that is made of the applications `declared`,
    /// none of them registered yet, and no dashboard either.
    pub(crate) fn with_order(declared: Vec<String>) -> (apps: Apps)
        ensures
            apps@.declared == names_of(declared@),
            apps@.apps.len() == 0,
            apps@.dashboards.len() == 0,
    {
        Apps { declared, apps: Vec::new(), dashboards: Vec::new() }
    }

    /// The number of applications that the node is made of.
    pub fn app_count(&self) -> (count: usize)
        ensures
            count == self@.declared.len(),
    {
        self.declared.len()
    }

    /// The names of the applications that the node is made of, in the order
    /// in which they are to start.
    pub fn startup_order(&self) -> (order: &Vec<String>)
        ensures
            names_of(order@) == self@.declared,
    {
        &self.declared
    }

    /// Whether the application `name` is registered.
    pub fn is_registered(&self, name: &String) -> (registered: bool)
        ensures
            registered == self@.registered(name@),
    {
        position(&self.apps, name).is_some()
    }

    /// Whether the supervisor can serve the event.
    pub fn can_serve(&self, event: &Event) -> (serves: bool)
        ensures
            serves == self@.serves(*event),
    {
        match event {
            Event::AppsStatus(_) => false,
            Event::StartApp(name) => position(&self.declared, name).is_some(),
            Event::AknShutdown(name) => position(&self.apps, name).is_none() || position(
                &self.declared,
                name,
            ).is_some(),
            _ => true,
        }
    }

    /// Takes one event under the one-for-one policy: brings the registry up to
    /// date and says what is to be done.
    pub fn one_for_one(&mut self, event: Event) -> (reaction: Reaction)
        requires
            old(self)@.serves(event),
        ensures
            final(self)@ == old(self)@.next(event),
            reaction@ == old(self)@.reaction(event),
            old(self)@.wf() ==> final(self)@.wf(),
    {
        match event {
            Event::RegisterDashboard(dashboard_name) => {
                proof {
                    if self@.wf() {
                        lemma_with_without(self@.dashboards, dashboard_name@);
                    }
                }
                // register dashboard by adding it to the list
                if position(&self.dashboards, &dashboard_name).is_none() {
                    proof {
                        lemma_names_push(self.dashboards@, dashboard_name);
                    }
                    self.dashboards.push(dashboard_name);
                }
                Reaction::Idle
            },
            Event::RegisterApp(app_name) => {
                proof {
                    if self@.wf() {
                        lemma_with_without(self@.apps, app_name@);
                    }
                }
                // register app in the list
                if position(&self.apps, &app_name).is_none() {
                    proof {
                        lemma_names_push(self.apps@, app_name);
                    }
                    self.apps.push(app_name.clone());
                }
                // tell the dashboards that the app has started
                Reaction::Started { app: app_name, dashboards: clone_names(&self.dashboards) }
            },
            Event::StartApp(app_name) => {
                // start the app and tell the dashboards that it has started
                Reaction::Start { app: app_name, dashboards: clone_names(&self.dashboards) }
            },
            Event::ShutdownApp(app_name) => {
                proof {
                    if self@.wf() {
                        lemma_with_without(self@.apps, app_name@);
                    }
                }
                match position(&self.apps, &app_name) {
                    Some(i) => {
                        proof {
                            lemma_names_remove(self.apps@, i as int);
                        }
                        let _ = self.apps.remove(i);
                        Reaction::Shutdown { app: app_name }
                    },
                    None => Reaction::Idle,
                }
            },
            Event::AknShutdown(app_name) => {
                // acknowledging the shutdown of an app under the one-for-one
                // policy asks us to restart the app unless the shutdown was
                // requested
                if position(&self.apps, &app_name).is_some() {
                    // the shutdown was not requested, so we restart
                    Reaction::Start { app: app_name, dashboards: clone_names(&self.dashboards) }
                } else {
                    // tell the dashboards that the app has shut down
                    Reaction::Stopped { app: app_name, dashboards: clone_names(&self.dashboards) }
                }
            },
            Event::Break => Reaction::Break,
            Event::AppsStatus(_) => Reaction::Idle,
        }
    }
}

} // verus!
