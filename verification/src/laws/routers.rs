//! What becomes of a section's routers and services, one by one.
use vstd::prelude::*;

use crate::laws::endpoints::{first_named, stands_at, unnamed};
use crate::laws::tables::{found_at, position_found};
use crate::problem::{Problem, RouterProblem, Section};
use crate::router::{expanded, expanded_routers, planned, with_generated, with_services, Plan};
use crate::text::same_name;
use crate::value::{key_found, lookup, lookup_inserted, name_at, name_at_unique, position_ci};
use crate::value::{Entries, Tree};

verus! {

/// What becomes of a router that is not refused: one without a port stays as it
/// is, another becomes what is planned for it.
pub open spec fn becomes(router: (Seq<char>, Tree), section: Section, after: (Seq<char>, Tree)) -> bool {
    &&& after.0 == router.0
    &&& planned(router.1, router.0, section) matches Ok(plan)
    &&& after.1 == match plan {
        Some(plan) => Tree::Table(plan.router),
        None => router.1,
    }
}

/// The services of the routers, from the first on.
pub open spec fn services_from(routers: Entries, section: Section) -> Entries
    decreases routers.len(),
{
    if routers.len() == 0 {
        Seq::empty()
    } else {
        (match planned(routers[0].1, routers[0].0, section) {
            Ok(Some(plan)) => seq![(plan.service, plan.backend)],
            _ => Seq::empty(),
        }) + services_from(routers.skip(1), section)
    }
}

proof fn one_router_more(routers: Entries, section: Section)
    requires
        routers.len() > 0,
    ensures
        services_from(routers, section) == services_from(routers.drop_last(), section) + (
        match planned(routers.last().1, routers.last().0, section) {
            Ok(Some(plan)) => seq![(plan.service, plan.backend)],
            _ => Seq::empty(),
        }),
    decreases routers.len(),
{
    let front = routers.drop_last();
    if front.len() == 0 {
        assert(services_from(routers.skip(1), section) =~= Seq::empty());
        assert(services_from(front, section) =~= Seq::empty());
        assert(routers[0] == routers.last());
        assert(services_from(routers, section) =~= services_from(front, section) + (match planned(
            routers.last().1,
            routers.last().0,
            section,
        ) {
            Ok(Some(plan)) => seq![(plan.service, plan.backend)],
            _ => Seq::empty(),
        }));
    } else {
        one_router_more(routers.skip(1), section);
        assert(routers.skip(1).drop_last() =~= front.skip(1));
        assert(routers.skip(1).last() == routers.last());
        assert(front[0] == routers[0]);
        assert(services_from(routers, section) =~= services_from(front, section) + (match planned(
            routers.last().1,
            routers.last().0,
            section,
        ) {
            Ok(Some(plan)) => seq![(plan.service, plan.backend)],
            _ => Seq::empty(),
        }));
    }
}

/// Routers are taken one by one: each becomes what it does on its own, under its
/// name, and the services come in the order of the routers. The first that is
/// refused decides, and is named.
#[verifier::rlimit(40)]
pub proof fn routers_become_one_by_one(routers: Entries, section: Section)
    ensures
        match expanded_routers(routers, section) {
            Ok((done, generated)) => {
                &&& done.len() == routers.len()
                &&& forall|i: int|
                    0 <= i < routers.len() ==> becomes(routers[i], section, #[trigger] done[i])
                &&& generated == services_from(routers, section)
            },
            Err(e) => exists|i: int|
                {
                    &&& 0 <= i < routers.len()
                    &&& planned((#[trigger] routers[i]).1, routers[i].0, section) matches Err(fault)
                    &&& e == Problem::Router { section, router: routers[i].0, fault }
                    &&& forall|j: int|
                        0 <= j < i ==> planned((#[trigger] routers[j]).1, routers[j].0, section)
                            is Ok
                },
        },
    decreases routers.len(),
{
    if routers.len() > 0 {
        let front = routers.drop_last();
        let last = routers.len() - 1;
        routers_become_one_by_one(front, section);
        one_router_more(routers, section);
        match expanded_routers(front, section) {
            Ok((before, made)) => {
                assert forall|j: int| 0 <= j < last implies planned(
                    (#[trigger] routers[j]).1,
                    routers[j].0,
                    section,
                ) is Ok by {
                    assert(front[j] == routers[j]);
                    assert(becomes(front[j], section, before[j]));
                }
                match planned(routers[last].1, routers[last].0, section) {
                    Err(fault) => {
                        assert(expanded_routers(routers, section) == Err::<
                            (Entries, Entries),
                            Problem<Seq<char>>,
                        >(Problem::Router { section, router: routers[last].0, fault }));
                    },
                    Ok(plan) => {
                        let (done, generated) = expanded_routers(routers, section)->Ok_0;
                        assert forall|i: int| 0 <= i < routers.len() implies becomes(
                            routers[i],
                            section,
                            #[trigger] done[i],
                        ) by {
                            if i < last {
                                assert(done[i] == before[i]);
                                assert(front[i] == routers[i]);
                                assert(becomes(front[i], section, before[i]));
                            }
                        }
                        assert(generated =~= services_from(routers, section));
                    },
                }
            },
            Err(e) => {
                let i = choose|i: int|
                    {
                        &&& 0 <= i < front.len()
                        &&& planned((#[trigger] front[i]).1, front[i].0, section) matches Err(
                            fault,
                        )
                        &&& e == Problem::Router { section, router: front[i].0, fault }
                        &&& forall|j: int|
                            0 <= j < i ==> planned((#[trigger] front[j]).1, front[j].0, section)
                                is Ok
                    };
                assert(routers[i] == front[i]);
                assert forall|j: int| 0 <= j < i implies planned(
                    (#[trigger] routers[j]).1,
                    routers[j].0,
                    section,
                ) is Ok by {
                    assert(routers[j] == front[j]);
                }
            },
        }
    }
}

/// The services gain those that the ports stand for, and nothing else: what is
/// there afterwards was there before or was made.
pub proof fn services_gain_only_what_was_made(
    services: Entries,
    generated: Entries,
    section: Section,
    name: Seq<char>,
    value: Tree,
)
    requires
        with_services(services, generated, section) is Ok,
        lookup(with_services(services, generated, section)->Ok_0, name) == Some(value),
    ensures
        lookup(services, name) == Some(value) || generated.contains((name, value)),
    decreases generated.len(),
{
    if generated.len() > 0 {
        let front = generated.drop_last();
        let before = with_services(services, front, section)->Ok_0;
        let (last, service) = generated.last();
        lookup_inserted(before, last, service, name);
        if name == last {
            assert(generated[generated.len() - 1] == (name, value));
        } else {
            services_gain_only_what_was_made(services, front, section, name, value);
            if front.contains((name, value)) {
                let k = choose|k: int| 0 <= k < front.len() && front[k] == (name, value);
                assert(generated[k] == (name, value));
            }
        }
    }
}

/// Services are refused for a name only where it is there already, whatever the
/// case of its letters: declared, or made for a router before.
pub proof fn services_are_refused_for_a_name_twice(
    services: Entries,
    generated: Entries,
    section: Section,
)
    requires
        with_services(services, generated, section) is Err,
    ensures
        exists|j: int|
            {
                &&& 0 <= j < generated.len()
                &&& with_services(services, generated, section) == Err::<
                    Entries,
                    Problem<Seq<char>>,
                >(Problem::Declared { section, service: (#[trigger] generated[j]).0 })
                &&& taken(services, generated.take(j), generated[j].0)
            },
    decreases generated.len(),
{
    let front = generated.drop_last();
    let last = generated.len() - 1;
    if with_services(services, front, section) is Err {
        services_are_refused_for_a_name_twice(services, front, section);
        let j = choose|j: int|
            {
                &&& 0 <= j < front.len()
                &&& with_services(services, front, section) == Err::<Entries, Problem<Seq<char>>>(
                    Problem::Declared { section, service: (#[trigger] front[j]).0 },
                )
                &&& taken(services, front.take(j), front[j].0)
            };
        assert(generated[j] == front[j]);
        assert(generated.take(j) =~= front.take(j));
    } else {
        let done = with_services(services, front, section)->Ok_0;
        let name = generated[last].0;
        position_found(done, name);
        let i = position_ci(done, name)->0;
        key_found(done, done[i].0, i);
        let at = found_at(done, done[i].0);
        services_gain_only_what_was_made(services, front, section, done[i].0, done[at].1);
        assert(generated.take(last) =~= front);
        if lookup(services, done[i].0) is Some {
            let k = found_at(services, done[i].0);
            assert(same_name(services[k].0, name));
        } else {
            let k = choose|k: int|
                0 <= k < front.len() && front[k] == (done[i].0, done[at].1);
            assert(same_name(front[k].0, name));
        }
        assert(taken(services, front, name));
    }
}

/// A name that one of these has, whatever the case of the letters.
pub open spec fn taken(services: Entries, made: Entries, name: Seq<char>) -> bool {
    ||| exists|k: int| 0 <= k < services.len() && same_name((#[trigger] services[k]).0, name)
    ||| exists|k: int| 0 <= k < made.len() && same_name((#[trigger] made[k]).0, name)
}

/// A section whose routers have no ports is left as it is.
pub proof fn section_without_ports_stays(entries: Entries, section: Section, r: Option<int>)
    requires
        stands_at(entries, "routers"@, r),
        r matches Some(r) ==> (entries[r].1 matches Tree::Table(routers) ==> forall|i: int|
            0 <= i < routers.len() ==> ((#[trigger] routers[i]).1 matches Tree::Table(router)
                ==> unnamed(router, "port"@))),
    ensures
        expanded(entries, section) == Ok::<Entries, Problem<Seq<char>>>(entries),
{
    position_found(entries, "routers"@);
    if let Some(r) = r {
        assert(name_at(entries, "routers"@, r));
        name_at_unique(entries, "routers"@, r);
        if let Tree::Table(routers) = entries[r].1 {
            routers_become_one_by_one(routers, section);
            assert forall|i: int| 0 <= i < routers.len() implies planned(
                (#[trigger] routers[i]).1,
                routers[i].0,
                section,
            ) == Ok::<Option<Plan>, RouterProblem<Seq<char>>>(None) by {
                if let Tree::Table(router) = routers[i].1 {
                    position_found(router, "port"@);
                }
            }
            no_services(routers, section);
            let (done, generated) = expanded_routers(routers, section)->Ok_0;
            assert forall|i: int| 0 <= i < routers.len() implies done[i] == routers[i] by {
                assert(becomes(routers[i], section, done[i]));
            }
            assert(done =~= routers);
            assert(entries.update(r, (entries[r].0, Tree::Table(done))) =~= entries);
        }
    }
}

proof fn no_services(routers: Entries, section: Section)
    requires
        forall|i: int|
            0 <= i < routers.len() ==> planned((#[trigger] routers[i]).1, routers[i].0, section)
                == Ok::<Option<Plan>, RouterProblem<Seq<char>>>(None),
    ensures
        services_from(routers, section).len() == 0,
    decreases routers.len(),
{
    if routers.len() > 0 {
        let rest = routers.skip(1);
        assert(forall|i: int| 0 <= i < rest.len() ==> rest[i] == #[trigger] routers[i + 1]);
        assert forall|i: int| 0 <= i < rest.len() implies planned(
            (#[trigger] rest[i]).1,
            rest[i].0,
            section,
        ) == Ok::<Option<Plan>, RouterProblem<Seq<char>>>(None) by {
            assert(rest[i] == routers[i + 1]);
        }
        no_services(rest, section);
        assert(planned(routers[0].1, routers[0].0, section) == Ok::<
            Option<Plan>,
            RouterProblem<Seq<char>>,
        >(None));
    }
}

/// Services that ports stand for need a map to stand in.
pub proof fn services_must_be_a_map(entries: Entries, generated: Entries, section: Section, i: int)
    requires
        first_named(entries, "services"@, i),
        !(entries[i].1 is Table),
    ensures
        with_generated(entries, generated, section) == Err::<Entries, Problem<Seq<char>>>(
            Problem::ServicesNotAMap { section },
        ),
{
    assert(name_at(entries, "services"@, i));
    name_at_unique(entries, "services"@, i);
}

/// A router that is no map stays as it is.
pub proof fn router_that_is_no_map_stays(router: Tree, name: Seq<char>, section: Section)
    requires
        !(router is Table),
    ensures
        planned(router, name, section) matches Ok(None),
{
}

} // verus!
