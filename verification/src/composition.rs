//! The composition of a node: which applications it is made of, which of them
//! each one needs to find running, and from that the order in which they start.

use crate::launcher::Apps;
use crate::names::{distinct, lemma_names_push, names_of, position};
use crate::search::{first_index, first_where, lemma_first_index, lemma_first_where};
use vstd::prelude::*;
use vstd::set_lib::{lemma_int_range, lemma_len_subset, lemma_subset_equality, set_int_range};

verus! {

/// An application of the node, with the applications that it depends on.
#[derive(Debug, Clone)]
pub struct Component {
    /// The name of the application.
    pub name: String,
    /// The names of the applications that have to run before this one starts.
    pub dependencies: Vec<String>,
}

/// A component, with its names as sequences of characters.
pub ghost struct ComponentView {
    pub name: Seq<char>,
    pub dependencies: Seq<Seq<char>>,
}

impl View for Component {
    type V = ComponentView;

    open spec fn view(&self) -> ComponentView {
        ComponentView { name: self.name@, dependencies: names_of(self.dependencies@) }
    }
}

/// Why a node cannot be composed.
#[derive(Debug, Copy, Clone, PartialEq, Eq, Structural)]
pub enum CompositionError {
    /// An application depends on one that the node is not made of.
    UnknownDependency,
    /// The dependencies go round in a circle: no order of the applications
    /// starts each one after those that it depends on.
    CompositionCycle,
}

/// The components that the components stand for.
pub open spec fn views_of(components: Seq<Component>) -> Seq<ComponentView> {
    components.map_values(|component: Component| component@)
}

/// The names of the components, in their order.
pub open spec fn component_names(components: Seq<ComponentView>) -> Seq<Seq<char>> {
    components.map_values(|component: ComponentView| component.name)
}

/// The components with one more declared: it takes the place of the
/// component of the same name if there is one, and else comes last.
pub open spec fn declare(components: Seq<ComponentView>, component: ComponentView) -> Seq<
    ComponentView,
> {
    match first_index(component_names(components), component.name, 0) {
        Some(i) => components.update(i, component),
        None => components.push(component),
    }
}

/// Whether `name` is the name of a component.
pub open spec fn known(components: Seq<ComponentView>, name: Seq<char>) -> bool {
    exists|i: int| 0 <= i < components.len() && (#[trigger] components[i]).name == name
}

/// Whether every dependency is the name of a component.
pub open spec fn closed(components: Seq<ComponentView>) -> bool {
    forall|i: int, j: int|
        0 <= i < components.len() && 0 <= j < components[i].dependencies.len() ==> known(
            components,
            #[trigger] components[i].dependencies[j],
        )
}

/// Whether every dependency of the component is among `started`.
pub open spec fn ready(component: ComponentView, started: Seq<Seq<char>>) -> bool {
    forall|j: int|
        0 <= j < component.dependencies.len() ==> started.contains(
            #[trigger] component.dependencies[j],
        )
}

/// Whether `order` is an order in which the components can start: it names
/// each component once and nothing else, and each component stands after all
/// those that it depends on.
pub open spec fn is_startup_order(components: Seq<ComponentView>, order: Seq<Seq<char>>) -> bool {
    &&& distinct(order)
    &&& order.len() == components.len()
    &&& forall|i: int|
        0 <= i < components.len() ==> order.contains((#[trigger] components[i]).name)
    &&& forall|p: int| 0 <= p < order.len() ==> known(components, #[trigger] order[p])
    &&& forall|i: int, p: int|
        0 <= i < components.len() && 0 <= p < order.len() && (#[trigger] components[i]).name
            == (#[trigger] order[p]) ==> ready(components[i], order.take(p))
}

/// What is wanted where a name is looked for that is not among `started`.
pub open spec fn outside(started: Seq<Seq<char>>) -> spec_fn(Seq<char>) -> bool {
    |name: Seq<char>| !started.contains(name)
}

/// The first place at or after `from` at which `order` holds a name that is
/// not among `started`.
pub open spec fn first_outside(order: Seq<Seq<char>>, started: Seq<Seq<char>>, from: int) -> Option<
    int,
> {
    first_where(order, outside(started), from)
}

/// What `first_outside` finds is the first such place, and it finds nothing
/// only where every name is among `started`.
proof fn lemma_first_outside(order: Seq<Seq<char>>, started: Seq<Seq<char>>, from: int)
    requires
        0 <= from,
    ensures
        match first_outside(order, started, from) {
            Some(p) => from <= p < order.len() && !started.contains(order[p]) && forall|q: int|
                from <= q < p ==> started.contains(#[trigger] order[q]),
            None => forall|q: int| from <= q < order.len() ==> started.contains(#[trigger] order[q]),
        },
{
    lemma_first_where(order, outside(started), from);
}

/// Where some component has not started, though none that has not started is
/// ready to, no order lets the components start at all: the first component
/// of such an order that has not started would be ready.
proof fn lemma_stuck(
    components: Seq<ComponentView>,
    started: Seq<Seq<char>>,
    waiting: int,
    order: Seq<Seq<char>>,
)
    requires
        0 <= waiting < components.len(),
        !started.contains(components[waiting].name),
        forall|i: int|
            0 <= i < components.len() ==> started.contains((#[trigger] components[i]).name)
                || !ready(components[i], started),
    ensures
        !is_startup_order(components, order),
{
    if is_startup_order(components, order) {
        lemma_first_outside(order, started, 0);
        assert(order.contains(components[waiting].name));
        let at = choose|at: int| 0 <= at < order.len() && order[at] == components[waiting].name;
        assert(!started.contains(order[at]));
        let p = first_outside(order, started, 0)->0;
        assert(known(components, order[p]));
        let i = choose|i: int| 0 <= i < components.len() && (#[trigger] components[i]).name == order[p];
        assert(ready(components[i], order.take(p)));
        assert forall|j: int| 0 <= j < components[i].dependencies.len() implies started.contains(
            #[trigger] components[i].dependencies[j],
        ) by {
            let dependency = components[i].dependencies[j];
            assert(order.take(p).contains(dependency));
            let q = choose|q: int| 0 <= q < order.take(p).len() && order.take(p)[q] == dependency;
            assert(order[q] == dependency);
            assert(started.contains(order[q]));
        }
        assert(ready(components[i], started));
    }
}

/// Where an application depends on one that is not declared, no order lets
/// the applications start: the one that is needed never runs.
pub proof fn lemma_unknown_dependency_has_no_order(
    components: Seq<ComponentView>,
    order: Seq<Seq<char>>,
)
    requires
        !closed(components),
    ensures
        !is_startup_order(components, order),
{
    if is_startup_order(components, order) {
        let (i, j) = choose|i: int, j: int|
            0 <= i < components.len() && 0 <= j < components[i].dependencies.len() && !known(
                components,
                #[trigger] components[i].dependencies[j],
            );
        let dependency = components[i].dependencies[j];
        assert(order.contains(components[i].name));
        let p = choose|p: int| 0 <= p < order.len() && order[p] == components[i].name;
        assert(ready(components[i], order.take(p)));
        assert(order.take(p).contains(dependency));
        let q = choose|q: int| 0 <= q < order.take(p).len() && order.take(p)[q] == dependency;
        assert(order[q] == dependency);
        assert(known(components, order[q]));
    }
}

/// The applications that a node is to be made of, before it is composed.
#[derive(Debug)]
pub struct AppsBuilder {
    /// The components; no name twice.
    components: Vec<Component>,
}

impl View for AppsBuilder {
    type V = Seq<ComponentView>;

    closed spec fn view(&self) -> Seq<ComponentView> {
        views_of(self.components@)
    }
}

impl AppsBuilder {
    /// No two components have the same name.
    #[verifier::type_invariant]
    closed spec fn distinct_names(self) -> bool {
        distinct(component_names(views_of(self.components@)))
    }

    /// A builder with no application yet.
    pub fn new() -> (builder: AppsBuilder)
        ensures
            builder@.len() == 0,
    {
        AppsBuilder { components: Vec::new() }
    }

    /// The number of applications that the node is to be made of.
    pub fn app_count(&self) -> (count: usize)
        ensures
            count == self@.len(),
    {
        self.components.len()
    }

    /// Declares the application `name`, which needs the applications
    /// `dependencies` to run before it starts. An application that was declared
    /// under this name before gives way to this one.
    pub fn app(self, name: String, dependencies: Vec<String>) -> (builder: AppsBuilder)
        ensures
            builder@ == declare(
                self@,
                ComponentView { name: name@, dependencies: names_of(dependencies@) },
            ),
            known(builder@, name@),
    {
        proof {
            use_type_invariant(&self);
        }
        let mut components = self.components;
        let ghost before = views_of(components@);
        let ghost declared = ComponentView { name: name@, dependencies: names_of(dependencies@) };
        proof {
            lemma_first_index(component_names(before), name@, 0);
        }
        match component_position(&components, &name) {
            Some(i) => {
                proof {
                    let first = first_index(component_names(before), name@, 0);
                    assert(component_names(before)[i as int] == name@);
                    assert(first == Some(i as int));
                }
                components[i] = Component { name, dependencies };
                proof {
                    let after = views_of(components@);
                    assert(after =~= before.update(i as int, declared));
                    assert(component_names(after) =~= component_names(before));
                    assert(after[i as int].name == name@);
                }
            },
            None => {
                proof {
                    if first_index(component_names(before), name@, 0) is Some {
                        let first = first_index(component_names(before), name@, 0)->0;
                        assert(before[first].name == component_names(before)[first]);
                    }
                }
                components.push(Component { name, dependencies });
                proof {
                    let after = views_of(components@);
                    assert(after =~= before.push(declared));
                    assert(component_names(after) =~= component_names(before).push(name@));
                    assert forall|a: int, b: int| 0 <= a < b < component_names(after).len() implies component_names(
                        after,
                    )[a] != component_names(after)[b] by {
                        assert(component_names(after)[a] == component_names(before)[a]);
                        assert(before[a].name != name@);
                        if b < before.len() {
                            assert(component_names(after)[b] == component_names(before)[b]);
                        }
                    }
                    assert(after[before.len() as int].name == name@);
                }
            },
        }
        AppsBuilder { components }
    }

    /// Composes the node: finds an order in which each application starts
    /// after all those that it depends on. There is none if an application
    /// depends on one that is not declared, or if the dependencies go round
    /// in a circle; where both hold, the undeclared dependency is reported.
    pub fn build(self) -> (composed: Result<Apps, CompositionError>)
        ensures
            !closed(self@) <==> (composed matches Err(CompositionError::UnknownDependency)),
            composed matches Ok(apps) ==> is_startup_order(self@, apps@.declared)
                && apps@.apps.len() == 0 && apps@.dashboards.len() == 0 && apps@.wf(),
            composed matches Err(CompositionError::CompositionCycle) ==> closed(self@),
            composed is Err ==> forall|order: Seq<Seq<char>>| !is_startup_order(self@, order),
    {
        proof {
            use_type_invariant(&self);
        }
        let components = self.components;
        let ghost views = views_of(components@);
        if !is_closed(&components) {
            proof {
                assert forall|candidate: Seq<Seq<char>>| !is_startup_order(views, candidate) by {
                    lemma_unknown_dependency_has_no_order(views, candidate);
                }
            }
            return Err(CompositionError::UnknownDependency);
        }
        let n: usize = components.len();
        let mut order: Vec<String> = Vec::new();
        // the places of the components that stand in the order
        let ghost mut placed: Set<int> = Set::empty();
        proof {
            lemma_int_range(0, n as int);
        }
        while order.len() < n
            invariant
                n == components.len(),
                order.len() <= n,
                views == self@,
                views == views_of(components@),
                distinct(component_names(views)),
                closed(views),
                distinct(names_of(order@)),
                placed.finite(),
                placed.len() == order.len(),
                placed.subset_of(set_int_range(0, n as int)),
                set_int_range(0, n as int).finite(),
                set_int_range(0, n as int).len() == n,
                forall|i: int|
                    0 <= i < n ==> (placed.contains(i) <==> names_of(order@).contains(
                        (#[trigger] views[i]).name,
                    )),
                forall|p: int| 0 <= p < order.len() ==> known(views, #[trigger] names_of(order@)[p]),
                forall|i: int, p: int|
                    0 <= i < n && 0 <= p < order.len() && (#[trigger] views[i]).name == (
                    #[trigger] names_of(order@)[p]) ==> ready(views[i], names_of(order@).take(p)),
            decreases n - order.len(),
        {
            let ghost started = names_of(order@);
            // look for an application that can start now
            let mut next: Option<usize> = None;
            let mut i: usize = 0;
            while i < n && next.is_none()
                invariant
                    i <= n,
                    n == components.len(),
                    views == self@,
                    views == views_of(components@),
                    started == names_of(order@),
                    next matches Some(k) ==> k < n && !started.contains(views[k as int].name)
                        && ready(views[k as int], started),
                    next is None ==> forall|k: int|
                        0 <= k < i ==> started.contains((#[trigger] views[k]).name) || !ready(
                            views[k],
                            started,
                        ),
                decreases n - i + (if next is None { 1int } else { 0int }),
            {
                if position(&order, &components[i].name).is_none() && is_ready(
                    &components[i],
                    &order,
                ) {
                    next = Some(i);
                } else {
                    i += 1;
                }
            }
            match next {
                Some(k) => {
                    let name = components[k].name.clone();
                    proof {
                        lemma_names_push(order@, name);
                        let grown = started.push(name@);
                        assert(!placed.contains(k as int));
                        assert forall|a: int, b: int| 0 <= a < b < grown.len() implies grown[a]
                            != grown[b] by {
                            if b == started.len() {
                                assert(started[a] == grown[a]);
                            }
                        }
                        assert forall|i: int| 0 <= i < n implies (placed.insert(k as int).contains(
                            i,
                        ) <==> grown.contains((#[trigger] views[i]).name)) by {
                            if started.contains(views[i].name) {
                                let at = choose|at: int|
                                    0 <= at < started.len() && started[at] == views[i].name;
                                assert(grown[at] == views[i].name);
                            }
                            if i == k {
                                assert(grown[started.len() as int] == views[i].name);
                            }
                            if grown.contains(views[i].name) && i != k {
                                let at = choose|at: int|
                                    0 <= at < grown.len() && grown[at] == views[i].name;
                                assert(component_names(views)[i] != component_names(views)[k as int]);
                                assert(started[at] == views[i].name);
                            }
                        }
                        assert forall|p: int| 0 <= p < grown.len() implies known(
                            views,
                            #[trigger] grown[p],
                        ) by {
                            if p < started.len() {
                                assert(grown[p] == started[p]);
                            }
                        }
                        assert forall|i: int, p: int|
                            0 <= i < n && 0 <= p < grown.len() && (#[trigger] views[i]).name == (
                            #[trigger] grown[p]) implies ready(views[i], grown.take(p)) by {
                            if p < started.len() {
                                assert(grown[p] == started[p]);
                                assert(grown.take(p) =~= started.take(p));
                            } else {
                                assert(grown.take(p) =~= started);
                                if i != k {
                                    assert(component_names(views)[i] != component_names(
                                        views,
                                    )[k as int]);
                                }
                            }
                        }
                        placed = placed.insert(k as int);
                        lemma_len_subset(placed, set_int_range(0, n as int));
                    }
                    order.push(name);
                },
                None => {
                    proof {
                        // some application has not started, for else the
                        // order would be full
                        if forall|i: int| 0 <= i < n ==> placed.contains(i) {
                            assert(set_int_range(0, n as int).subset_of(placed));
                            lemma_len_subset(set_int_range(0, n as int), placed);
                        }
                        let waiting = choose|i: int| 0 <= i < n && !placed.contains(i);
                        assert forall|candidate: Seq<Seq<char>>| !is_startup_order(
                            views,
                            candidate,
                        ) by {
                            lemma_stuck(views, started, waiting, candidate);
                        }
                    }
                    return Err(CompositionError::CompositionCycle);
                },
            }
        }
        proof {
            lemma_subset_equality(placed, set_int_range(0, n as int));
            assert forall|i: int| 0 <= i < views.len() implies names_of(order@).contains(
                (#[trigger] views[i]).name,
            ) by {
                assert(set_int_range(0, n as int).contains(i));
            }
        }
        Ok(Apps::with_order(order))
    }
}

/// Where the component with the name `name` stands, if there is one.
fn component_position(components: &Vec<Component>, name: &String) -> (place: Option<usize>)
    ensures
        match place {
            Some(i) => i < components.len() && components@[i as int]@.name == name@,
            None => !known(views_of(components@), name@),
        },
{
    let n: usize = components.len();
    let mut i: usize = 0;
    while i < n
        invariant
            i <= n,
            n == components.len(),
            forall|k: int| 0 <= k < i ==> (#[trigger] views_of(components@)[k]).name != name@,
        decreases n - i,
    {
        if components[i].name == *name {
            return Some(i);
        }
        i += 1;
    }
    None
}

/// Whether every dependency of the component is among `started`.
fn is_ready(component: &Component, started: &Vec<String>) -> (yes: bool)
    ensures
        yes == ready(component@, names_of(started@)),
{
    let n: usize = component.dependencies.len();
    let mut j: usize = 0;
    while j < n
        invariant
            j <= n,
            n == component.dependencies.len(),
            forall|k: int|
                0 <= k < j ==> names_of(started@).contains(#[trigger] component@.dependencies[k]),
        decreases n - j,
    {
        if position(started, &component.dependencies[j]).is_none() {
            assert(!names_of(started@).contains(component@.dependencies[j as int]));
            return false;
        }
        j += 1;
    }
    true
}

/// Whether every dependency of the components is the name of one of them.
fn is_closed(components: &Vec<Component>) -> (yes: bool)
    ensures
        yes == closed(views_of(components@)),
{
    let n: usize = components.len();
    let mut i: usize = 0;
    while i < n
        invariant
            i <= n,
            n == components.len(),
            forall|a: int, b: int|
                0 <= a < i && 0 <= b < views_of(components@)[a].dependencies.len() ==> known(
                    views_of(components@),
                    #[trigger] views_of(components@)[a].dependencies[b],
                ),
        decreases n - i,
    {
        let dependencies = &components[i].dependencies;
        let m: usize = dependencies.len();
        let mut j: usize = 0;
        while j < m
            invariant
                j <= m,
                i < n,
                n == components.len(),
                dependencies == &components@[i as int].dependencies,
                m == dependencies.len(),
                forall|b: int|
                    0 <= b < j ==> known(
                        views_of(components@),
                        #[trigger] views_of(components@)[i as int].dependencies[b],
                    ),
            decreases m - j,
        {
            let found = component_position(components, &dependencies[j]);
            proof {
                assert(views_of(components@)[i as int].dependencies[j as int] == dependencies@[j as int]@);
            }
            match found {
                Some(k) => {
                    assert(views_of(components@)[k as int].name == dependencies@[j as int]@);
                },
                None => {
                    return false;
                },
            }
            j += 1;
        }
        i += 1;
    }
    true
}

} // verus!
