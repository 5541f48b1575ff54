//! The problem variants the solver handles, and the split delivery one.
use vstd::prelude::*;
use crate::construction::pieces;
use crate::instance::{Instance, Node};
use crate::random::Random;
use crate::repair::repairable;
use crate::route_context::RouteContext;
use crate::solution::{AlkaidSolution, route_seq};
use crate::chain::{cust_load, chain_load, distinct_customers};
use crate::inter_operator::{delivered, loads_nonneg};
use crate::sdvrp::{Sdvrp, delivered_by_marks, routes_are, routes_without};
use crate::utils::{fleet_lower_bound, total_demand};

verus! {

/// A vehicle routing problem variant: its instances, and how solutions of
/// them are built, repaired, ruined and rebuilt, and measured.
pub trait VrpVariant {
    /// Instances of the variant.
    type Instance;

    /// The plain instance underlying `instance`.
    spec fn base(instance: &Self::Instance) -> Instance;

    /// The plain instance underlying `instance`.
    fn base_instance(instance: &Self::Instance) -> (r: &Instance)
        ensures
            *r == Self::base(instance),
    ;

    /// Initial solution by the randomized insertion construction.
    fn construct(instance: &Self::Instance, random: &mut Random) -> (r: AlkaidSolution)
        requires
            Self::base(instance).wf(),
            total_demand(&Self::base(instance)) + Self::base(instance).capacity <= i32::MAX,
            pieces(&Self::base(instance)).len() < i16::MAX,
        ensures
            r.valid_for(&Self::base(instance)),
            r.served().to_multiset() == pieces(&Self::base(instance)).to_multiset(),
            forall|k: int|
                0 <= k < r.used().len() ==> 0 < #[trigger] r.nodes()[r.used()[k] as int].load <= Self::base(instance).capacity,
    ;

    /// Merges repeated visits of route `route_index` to one customer.
    fn repair(instance: &Self::Instance, route_index: Node, solution: &mut AlkaidSolution, context: &mut RouteContext)
        requires
            Self::base(instance).wf(),
            old(solution).valid_for(&Self::base(instance)),
            old(context).fits(old(solution)),
            0 <= route_index < old(context).routes().len(),
            old(context).head_of(route_index as int) != 0 ==> repairable(
                old(solution),
                old(context).head_of(route_index as int),
            ),
        ensures
            final(solution).valid_for(&Self::base(instance)),
            final(context).fits(final(solution)),
            final(context).routes().len() == old(context).routes().len(),
            forall|q: int|
                0 <= q < old(context).routes().len() && q != route_index ==> #[trigger] final(context).routes()[q]
                    == old(context).routes()[q],
            old(context).head_of(route_index as int) == 0 ==> *final(solution) == *old(solution) && *final(context)
                == *old(context),
            loads_nonneg(old(solution)) ==> loads_nonneg(final(solution)),
            forall|c: int| #[trigger] delivered(final(solution), c) == delivered(old(solution), c),
            final(solution).nodes().len() == old(solution).nodes().len(),
            old(context).pre_loads().len() >= old(solution).nodes().len() ==> final(context).pre_loads().len()
                >= final(solution).nodes().len(),
            ({
                let d = old(solution).nodes();
                let r0 = route_seq(d, old(context).head_of(route_index as int));
                let d2 = final(solution).nodes();
                let h2 = final(context).head_of(route_index as int);
                old(context).head_of(route_index as int) != 0 ==> {
                    &&& h2 != 0
                    &&& repairable(final(solution), h2)
                    &&& distinct_customers(d2, route_seq(d2, h2))
                    &&& forall|c: int| #[trigger] cust_load(d2, route_seq(d2, h2), c) == cust_load(d, r0, c)
                    &&& chain_load(d2, route_seq(d2, h2)) == chain_load(d, r0)
                    &&& route_seq(d2, h2).len() <= r0.len()
                    &&& final(context).routes()[route_index as int].tail == route_seq(d2, h2).last()
                    &&& final(context).routes()[route_index as int].load == chain_load(d2, route_seq(d2, h2))
                }
            }),
    ;

    /// Removes, route by route, every used slot that serves one of
    /// `customers`, and refreshes the bookkeeping of the route. Each route
    /// is walked from its head to the depot (or for as many steps as there
    /// are slots, or until a slot not in use).
    fn remove_customers(
        instance: &Self::Instance,
        customers: &[Node],
        solution: &mut AlkaidSolution,
        context: &mut RouteContext,
    )
        requires
            Self::base(instance).wf(),
            old(solution).valid_for(&Self::base(instance)),
            old(context).fits(old(solution)),
        ensures
            final(solution).valid_for(&Self::base(instance)),
            final(context).fits(final(solution)),
            final(context).routes().len() == old(context).routes().len(),
            final(solution).nodes().len() == old(solution).nodes().len(),
            forall|y: Node| #[trigger] final(solution).used().contains(y) ==> old(solution).used().contains(y),
            forall|y: Node|
                old(solution).used().contains(y) && !#[trigger] final(solution).used().contains(y) ==> customers@.contains(
                    old(solution).nodes()[y as int].customer,
                ),
            forall|n: int|
                0 <= n < old(solution).nodes().len() ==> (#[trigger] final(solution).nodes()[n]).customer
                    == old(solution).nodes()[n].customer && final(solution).nodes()[n].load == old(solution).nodes()[n].load,
            forall|rs: Seq<Seq<Node>>|
                #[trigger] routes_are(old(solution), old(context), rs) ==> routes_are(
                    final(solution),
                    final(context),
                    routes_without(old(solution).nodes(), rs, customers@),
                ),
    ;

    /// Reinserts the whole demand of each of `customers` in turn by split
    /// reinsertion (skip threshold `blink_threshold` out of 2^24).
    fn reinsert_customers(
        instance: &Self::Instance,
        customers: &[Node],
        blink_threshold: u32,
        solution: &mut AlkaidSolution,
        context: &mut RouteContext,
        random: &mut Random,
    )
        requires
            Self::base(instance).wf(),
            old(solution).valid_for(&Self::base(instance)),
            old(context).fits(old(solution)),
            forall|k: int| 0 <= k < customers@.len() ==> Self::base(instance).is_node(#[trigger] customers@[k] as int),
            old(solution).room() >= customers@.len() * old(context).routes().len(),
        ensures
            final(solution).valid_for(&Self::base(instance)),
            final(context).fits(final(solution)),
            final(context).routes().len() == old(context).routes().len(),
            final(solution).used().len() >= old(solution).used().len(),
            final(solution).used().take(old(solution).used().len() as int) == old(solution).used(),
            forall|k: int|
                0 <= k < old(solution).used().len() ==> {
                    let x = #[trigger] old(solution).used()[k] as int;
                    &&& final(solution).nodes()[x].customer == old(solution).nodes()[x].customer
                    &&& final(solution).nodes()[x].load == old(solution).nodes()[x].load
                },
            exists|done: Seq<bool>| #[trigger] delivered_by_marks(old(solution), final(solution), (&Self::base(instance)), customers@, done),
    ;

    /// Total travel cost.
    fn calc_objective(instance: &Self::Instance, solution: &AlkaidSolution) -> (r: i32)
        requires
            Self::base(instance).wf(),
            solution.valid_for(&Self::base(instance)),
            i32::MIN <= solution.objective(&Self::base(instance)) <= i32::MAX,
        ensures
            r == solution.objective(&Self::base(instance)),
    ;

    /// Lower bound on the number of vehicles.
    fn calc_fleet_lower_bound(instance: &Self::Instance) -> (r: Node)
        requires
            Self::base(instance).wf(),
            total_demand(&Self::base(instance)) + Self::base(instance).capacity <= i32::MAX,
        ensures
            r == #[verifier::truncate] (fleet_lower_bound(&Self::base(instance)) as Node),
    ;
}

impl VrpVariant for Sdvrp {
    type Instance = Instance;

    open spec fn base(instance: &Instance) -> Instance {
        *instance
    }

    fn base_instance(instance: &Instance) -> (r: &Instance) {
        Sdvrp::base_instance(instance)
    }

    fn construct(instance: &Instance, random: &mut Random) -> (r: AlkaidSolution) {
        Sdvrp::construct(instance, random)
    }

    fn repair(instance: &Instance, route_index: Node, solution: &mut AlkaidSolution, context: &mut RouteContext) {
        Sdvrp::repair(instance, route_index, solution, context)
    }

    fn remove_customers(instance: &Instance, customers: &[Node], solution: &mut AlkaidSolution, context: &mut RouteContext) {
        Sdvrp::remove_customers(instance, customers, solution, context)
    }

    fn reinsert_customers(
        instance: &Instance,
        customers: &[Node],
        blink_threshold: u32,
        solution: &mut AlkaidSolution,
        context: &mut RouteContext,
        random: &mut Random,
    ) {
        Sdvrp::reinsert_customers(instance, customers, blink_threshold, solution, context, random)
    }

    fn calc_objective(instance: &Instance, solution: &AlkaidSolution) -> (r: i32) {
        Sdvrp::calc_objective(instance, solution)
    }

    fn calc_fleet_lower_bound(instance: &Instance) -> (r: Node) {
        Sdvrp::calc_fleet_lower_bound(instance)
    }
}

} // verus!
