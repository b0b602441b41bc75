//! A deterministic order in which every fact follows its resident inputs.

use vstd::prelude::*;

use crate::content;
use crate::fact::{dependencies, Facts, SignedFact};
use crate::ids::FactId;
use crate::multimap;
use crate::multimap::{join_all, list_at};
use crate::order;
use crate::ordmap::OrdMap;
use crate::ordset;
use crate::ordset::OrdSet;

verus! {

/// The inputs of a fact that are among the facts.
pub open spec fn awaits(facts: Facts, id: FactId) -> Set<FactId> {
    facts[id].inputs().intersect(facts.dom())
}

/// The facts outside `done` whose resident inputs are all in it.
pub open spec fn ready_after(facts: Facts, done: Set<FactId>) -> Set<FactId> {
    Set::new(
        |id: FactId|
            facts.contains_key(id) && !done.contains(id) && awaits(facts, id).subset_of(done),
    )
}

/// The facts in causal order after `done`: at each step the least ready one.
pub open spec fn topological(facts: Facts, done: Seq<FactId>) -> Seq<FactId>
    decreases facts.dom().difference(done.to_set()).len(),
    when facts.dom().finite()
{
    let ready = ready_after(facts, done.to_set());
    if ready == Set::<FactId>::empty() {
        done
    } else {
        proof {
            lemma_one_more(facts, done);
        }
        topological(facts, done.push(order::ascending(ready)[0]))
    }
}

/// Taking the least ready fact leaves fewer.
pub proof fn lemma_one_more(facts: Facts, done: Seq<FactId>)
    requires
        facts.dom().finite(),
        ready_after(facts, done.to_set()) != Set::<FactId>::empty(),
    ensures
        ({
            let next = order::ascending(ready_after(facts, done.to_set()))[0];
            &&& ready_after(facts, done.to_set()).contains(next)
            &&& facts.dom().difference(done.push(next).to_set()).len() < facts.dom().difference(
                done.to_set(),
            ).len()
        }),
{
    let ready = ready_after(facts, done.to_set());
    assert(ready.subset_of(facts.dom()));
    vstd::set_lib::lemma_set_subset_finite(facts.dom(), ready);
    ordset::lemma_listing(ready);
    let list = order::ascending(ready);
    assert(list.len() > 0) by {
        if list.len() == 0 {
            assert(ready =~= Set::<FactId>::empty());
        }
    }
    assert(list.contains(list[0]));
    content::lemma_push_set(done, list[0]);
    assert(facts.dom().difference(done.push(list[0]).to_set()) =~= facts.dom().difference(
        done.to_set(),
    ).remove(list[0]));
    assert(facts.dom().difference(done.to_set()).contains(list[0]));
}

/// The facts in causal order; those on a cycle follow by identifier.
pub open spec fn causal_order(facts: Facts) -> Seq<FactId> {
    let done = topological(facts, Seq::empty());
    done + order::ascending(facts.dom().difference(done.to_set()))
}

/// The inputs of a fact that are among the facts, in order.
fn resident_inputs(facts: &OrdMap<FactId, SignedFact>, fact: &SignedFact) -> (r: OrdSet<FactId>)
    ensures
        r@ == fact@.inputs().intersect(facts@.dom()),
{
    let inputs = dependencies(fact);
    let n: usize = inputs.len();
    let mut r: OrdSet<FactId> = OrdSet::new();
    assert(inputs@.take(0).to_set() =~= Set::<FactId>::empty());
    assert(r@ =~= inputs@.take(0).to_set().intersect(facts@.dom()));
    for i in 0..n
        invariant
            n == inputs@.len(),
            r@ == inputs@.take(i as int).to_set().intersect(facts@.dom()),
    {
        if facts.contains_key(&inputs[i]) {
            r.insert(inputs[i]);
        }
        proof {
            ordset::lemma_take_set(inputs@, i as int);
            assert(r@ =~= inputs@.take(i + 1).to_set().intersect(facts@.dom()));
        }
    }
    assert(inputs@.take(n as int) =~= inputs@);
    r
}

/// What each fact still awaits, and what waits for each fact.
fn waiting_tables(facts: &OrdMap<FactId, SignedFact>) -> (r: (
    OrdMap<FactId, OrdSet<FactId>>,
    OrdMap<FactId, OrdSet<FactId>>,
))
    ensures
        r.0@.dom() == facts@.dom(),
        forall|id: FactId| #[trigger] facts@.contains_key(id) ==> r.0@[id] == awaits(facts@, id),
        forall|d: FactId, x: FactId| #[trigger]
            multimap::at(r.1@, d).contains(x) <==> facts@.contains_key(x) && awaits(
                facts@,
                x,
            ).contains(d),
{
    let ids = facts.keys();
    let n: usize = ids.len();
    let mut left: OrdMap<FactId, OrdSet<FactId>> = OrdMap::new();
    let mut users: OrdMap<FactId, OrdSet<FactId>> = OrdMap::new();
    assert(ids@.take(0).to_set() =~= Set::<FactId>::empty());
    assert(left@.dom() =~= ids@.take(0).to_set());
    for i in 0..n
        invariant
            n == ids@.len(),
            forall|k: FactId| #[trigger] ids@.contains(k) <==> facts@.contains_key(k),
            left@.dom() == ids@.take(i as int).to_set(),
            forall|id: FactId| #[trigger]
                left@.contains_key(id) ==> left@[id] == awaits(facts@, id),
            forall|d: FactId, x: FactId| #[trigger]
                multimap::at(users@, d).contains(x) <==> ids@.take(i as int).to_set().contains(x)
                    && awaits(facts@, x).contains(d),
    {
        assert(ids@.contains(ids@[i as int]));
        let inputs = resident_inputs(facts, facts.value(&ids[i]));
        let list = inputs.to_vec();
        let ghost before = users@;
        join_all(&mut users, &list, ids[i]);
        left.insert(ids[i], inputs);
        proof {
            ordset::lemma_take_set(ids@, i as int);
            assert(left@.dom() =~= ids@.take(i + 1).to_set());
            assert forall|d: FactId, x: FactId| #[trigger]
                multimap::at(users@, d).contains(x) <==> ids@.take(i + 1).to_set().contains(x)
                    && awaits(facts@, x).contains(d) by {
                assert(multimap::at(before, d).contains(x) <==> ids@.take(
                    i as int,
                ).to_set().contains(x) && awaits(facts@, x).contains(d));
            }
        }
    }
    assert(ids@.take(n as int) =~= ids@);
    (left, users)
}

/// Takes `id` off what its users still await; a user that awaits nothing more
/// becomes ready.
fn release(
    left: &mut OrdMap<FactId, OrdSet<FactId>>,
    ready: &mut OrdSet<FactId>,
    users: &Vec<FactId>,
    id: FactId,
)
    requires
        users@.no_duplicates(),
        forall|x: FactId| #[trigger]
            old(ready)@.contains(x) <==> old(left)@.contains_key(x) && old(left)@[x] == Set::<
                FactId,
            >::empty(),
        forall|x: FactId| #[trigger]
            old(left)@.contains_key(x) && old(left)@[x].contains(id) ==> users@.contains(x),
    ensures
        final(left)@.dom() == old(left)@.dom(),
        forall|x: FactId| #[trigger]
            final(left)@.contains_key(x) ==> final(left)@[x] == old(left)@[x].remove(id),
        forall|x: FactId| #[trigger]
            final(ready)@.contains(x) <==> final(left)@.contains_key(x) && final(left)@[x] == Set::<
                FactId,
            >::empty(),
{
    let n: usize = users.len();
    let ghost start = left@;
    for i in 0..n
        invariant
            n == users@.len(),
            users@.no_duplicates(),
            left@.dom() == start.dom(),
            forall|x: FactId| #[trigger]
                left@.contains_key(x) ==> left@[x] == (if users@.take(i as int).to_set().contains(
                    x,
                ) {
                    start[x].remove(id)
                } else {
                    start[x]
                }),
            forall|x: FactId| #[trigger]
                ready@.contains(x) <==> left@.contains_key(x) && left@[x] == Set::<
                    FactId,
                >::empty(),
    {
        proof {
            ordset::lemma_next_is_new(users@, i as int);
        }
        let user = users[i];
        let ghost before = left@;
        if let Some(found) = left.remove(&user) {
            let mut rest = found;
            rest.remove(&id);
            if rest.is_empty() {
                ready.insert(user);
            } else {
                ready.remove(&user);
            }
            left.insert(user, rest);
        }
        assert(left@.dom() =~= start.dom());
    }
    proof {
        assert(users@.take(n as int) =~= users@);
        assert forall|x: FactId| #[trigger] left@.contains_key(x) implies left@[x]
            == start[x].remove(id) by {
            if !users@.to_set().contains(x) {
                assert(!users@.contains(x));
                assert(start.contains_key(x));
                assert(start[x].remove(id) =~= start[x]);
            }
        }
    }
}

/// Lists the facts that can be put in causal order, and those on a cycle.
pub(crate) fn part_causally(facts: &OrdMap<FactId, SignedFact>) -> (r: (Vec<FactId>, Vec<FactId>))
    ensures
        r.0@ == topological(facts@, Seq::empty()),
        r.1@ == order::ascending(facts@.dom().difference(r.0@.to_set())),
        r.1@.to_set() == facts@.dom().difference(r.0@.to_set()),
{
    let ids = facts.keys();
    let (left0, users) = waiting_tables(facts);
    let mut left = left0;
    let mut ready: OrdSet<FactId> = OrdSet::new();
    let n: usize = ids.len();
    for i in 0..n
        invariant
            n == ids@.len(),
            left@.dom() == facts@.dom(),
            forall|k: FactId| #[trigger] ids@.contains(k) <==> facts@.contains_key(k),
            forall|x: FactId| #[trigger]
                ready@.contains(x) <==> ids@.take(i as int).to_set().contains(x) && left@[x]
                    == Set::<FactId>::empty(),
    {
        assert(ids@.contains(ids@[i as int]));
        assert(left@.dom().contains(ids@[i as int]));
        if left.value(&ids[i]).is_empty() {
            ready.insert(ids[i]);
        }
        proof {
            ordset::lemma_take_set(ids@, i as int);
        }
    }
    let mut done: Vec<FactId> = Vec::new();
    proof {
        assert(ids@.take(n as int) =~= ids@);
        assert(done@ =~= Seq::empty());
        assert(done@.to_set() =~= Set::<FactId>::empty());
        assert forall|id: FactId| #[trigger] left@.contains_key(id) implies left@[id] == awaits(
            facts@,
            id,
        ).difference(done@.to_set()) by {
            assert(facts@.contains_key(id));
            assert(awaits(facts@, id).difference(done@.to_set()) =~= awaits(facts@, id));
        }
        assert forall|x: FactId| #[trigger] ready@.contains(x) <==> left@.contains_key(x)
            && left@[x] == Set::<FactId>::empty() by {
            assert(ids@.to_set().contains(x) <==> ids@.contains(x));
        }
    }
    loop
        invariant
            facts@.dom().finite(),
            forall|d: FactId, x: FactId| #[trigger]
                multimap::at(users@, d).contains(x) <==> facts@.contains_key(x) && awaits(
                    facts@,
                    x,
                ).contains(d),
            forall|id: FactId| #[trigger]
                left@.contains_key(id) <==> facts@.contains_key(id) && !done@.to_set().contains(id),
            forall|id: FactId| #[trigger]
                left@.contains_key(id) ==> left@[id] == awaits(facts@, id).difference(
                    done@.to_set(),
                ),
            forall|x: FactId| #[trigger]
                ready@.contains(x) <==> left@.contains_key(x) && left@[x] == Set::<
                    FactId,
                >::empty(),
            topological(facts@, done@) == topological(facts@, Seq::empty()),
        ensures
            done@ == topological(facts@, Seq::empty()),
            forall|id: FactId| #[trigger]
                left@.contains_key(id) <==> facts@.contains_key(id) && !done@.to_set().contains(id),
        decreases facts@.dom().difference(done@.to_set()).len(),
    {
        proof {
            lemma_ready(facts@, done@.to_set(), left@, ready@);
        }
        let id = match ready.first() {
            Some(id) => id,
            None => {
                break;
            },
        };
        let ghost before = done@;
        proof {
            lemma_one_more(facts@, done@);
            content::lemma_push_set(done@, id);
        }
        done.push(id);
        ready.remove(&id);
        let ghost left0 = left@;
        left.remove(&id);
        let list = list_at(&users, &id);
        proof {
            assert forall|x: FactId| #[trigger] ready@.contains(x) <==> left@.contains_key(x)
                && left@[x] == Set::<FactId>::empty() by {
                assert(left0.contains_key(x) || !left0.contains_key(x));
            }
            assert forall|x: FactId| #[trigger]
                left@.contains_key(x) && left@[x].contains(id) implies list@.contains(x) by {
                assert(left0.contains_key(x));
                assert(multimap::at(users@, id).contains(x));
            }
        }
        release(&mut left, &mut ready, &list, id);
        proof {
            assert forall|x: FactId| #[trigger] left@.contains_key(x) <==> facts@.contains_key(x)
                && !done@.to_set().contains(x) by {
                assert(left@.dom().contains(x) <==> left0.contains_key(x) && x != id);
            }
            assert forall|x: FactId| #[trigger] left@.contains_key(x) implies left@[x] == awaits(
                facts@,
                x,
            ).difference(done@.to_set()) by {
                assert(left0.contains_key(x));
                assert(awaits(facts@, x).difference(done@.to_set()) =~= awaits(
                    facts@,
                    x,
                ).difference(before.to_set()).remove(id));
            }
        }
    }
    let rest = left.keys();
    proof {
        assert(left@.dom() =~= facts@.dom().difference(done@.to_set()));
    }
    (done, rest)
}

/// Lists the facts in causal order.
pub fn order_causally(facts: &OrdMap<FactId, SignedFact>) -> (r: Vec<FactId>)
    ensures
        r@ == causal_order(facts@),
{
    let (mut done, rest) = part_causally(facts);
    ordset::append_keys(&mut done, &rest);
    done
}

/// What stands in causal order are facts, each once and after its resident
/// inputs.
pub proof fn lemma_topological(facts: Facts, done: Seq<FactId>)
    requires
        facts.dom().finite(),
        is_causal(facts, done),
    ensures
        is_causal(facts, topological(facts, done)),
    decreases facts.dom().difference(done.to_set()).len(),
{
    let ready = ready_after(facts, done.to_set());
    if ready != Set::<FactId>::empty() {
        lemma_one_more(facts, done);
        let next = order::ascending(ready)[0];
        let more = done.push(next);
        assert forall|i: int| 0 <= i < more.len() implies facts.contains_key(#[trigger] more[i])
            && awaits(facts, more[i]).subset_of(more.take(i).to_set()) by {
            assert(more.take(i) =~= done.take(i));
            if i == done.len() {
                assert(done.take(i) =~= done);
            } else {
                assert(more[i] == done[i]);
            }
        }
        assert forall|i: int, j: int| 0 <= i < more.len() && 0 <= j < more.len() && i
            != j implies more[i] != more[j] by {
            if i == done.len() {
                assert(done.contains(more[j]));
                assert(done.to_set().contains(more[j]));
            } else if j == done.len() {
                assert(done.contains(more[i]));
                assert(done.to_set().contains(more[i]));
            }
        }
        lemma_topological(facts, more);
    }
}

/// What follows in causal order ends where nothing is ready.
pub proof fn lemma_topological_ends(facts: Facts, done: Seq<FactId>)
    requires
        facts.dom().finite(),
    ensures
        ready_after(facts, topological(facts, done).to_set()) == Set::<FactId>::empty(),
    decreases facts.dom().difference(done.to_set()).len(),
{
    let ready = ready_after(facts, done.to_set());
    if ready != Set::<FactId>::empty() {
        lemma_one_more(facts, done);
        lemma_topological_ends(facts, done.push(order::ascending(ready)[0]));
    }
}

/// Whether a list names facts, each once and after its resident inputs.
pub open spec fn is_causal(facts: Facts, list: Seq<FactId>) -> bool {
    &&& list.no_duplicates()
    &&& forall|i: int|
        0 <= i < list.len() ==> facts.contains_key(#[trigger] list[i]) && awaits(
            facts,
            list[i],
        ).subset_of(list.take(i).to_set())
}

proof fn lemma_ready(
    facts: Facts,
    done: Set<FactId>,
    left: Map<FactId, Set<FactId>>,
    ready: Set<FactId>,
)
    requires
        forall|id: FactId| #[trigger]
            left.contains_key(id) <==> facts.contains_key(id) && !done.contains(id),
        forall|id: FactId| #[trigger]
            left.contains_key(id) ==> left[id] == awaits(facts, id).difference(done),
        forall|x: FactId| #[trigger]
            ready.contains(x) <==> left.contains_key(x) && left[x] == Set::<FactId>::empty(),
    ensures
        ready == ready_after(facts, done),
{
    assert forall|x: FactId| #[trigger] ready.contains(x) <==> ready_after(facts, done).contains(
        x,
    ) by {
        if left.contains_key(x) {
            if left[x] == Set::<FactId>::empty() {
                assert(awaits(facts, x).subset_of(done)) by {
                    assert forall|d: FactId| awaits(facts, x).contains(d) implies done.contains(
                        d,
                    ) by {
                        assert(!left[x].contains(d));
                    }
                }
            }
            if awaits(facts, x).subset_of(done) {
                assert(left[x] =~= Set::<FactId>::empty());
            }
        }
    }
    assert(ready =~= ready_after(facts, done));
}

} // verus!
