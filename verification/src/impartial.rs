//! Two receivers judge a fact alike: what else reached them plays no part.

use vstd::prelude::*;

use crate::accounting;
use crate::admission;
use crate::admission::AdmissionView;
use crate::canon;
use crate::content::{BodyView, ExclusiveCell, Role};
use crate::continuity;
use crate::costs;
use crate::costs::CostView;
use crate::device::DeviceId;
use crate::error::SemanticError;
use crate::evaluator;
use crate::exactness;
use crate::fact;
use crate::fact::{Facts, FactView};
use crate::graph::{GraphView, ProjectionView, RowView};
use crate::ids::FactId;
use crate::order;
use crate::ordset;
use crate::projection;
use crate::provenance;
use crate::provenance::PlanView;
use crate::reach;
use crate::rebuild;
use crate::refit;
use crate::soundness;
use crate::validation;

verus! {

/// Whether two graphs say the same of their facts: facts, indexes, setting and
/// projection are the same, whatever their counters and revisions.
pub open spec fn say_alike(a: GraphView, b: GraphView) -> bool {
    &&& a.facts == b.facts
    &&& a.index == b.index
    &&& a.indexes_current() == b.indexes_current()
    &&& a.setting == b.setting
    &&& projection::current(a) == projection::current(b)
}

/// Graphs that say the same show the same past of a fact.
proof fn lemma_past_alike(a: GraphView, b: GraphView, f: FactView)
    requires
        say_alike(a, b),
    ensures
        match (rebuild::causal_view(a, f), rebuild::causal_view(b, f)) {
            (Ok(x), Ok(y)) => say_alike(x, y),
            (Err(x), Err(y)) => x == y,
            _ => false,
        },
{
    reveal(rebuild::causal_view);
    assert(a.reading() == b.reading());
    assert forall|ids: Set<FactId>| rebuild::scoped(a, ids) == #[trigger] rebuild::scoped(b, ids) by {}
}

/// Graphs that say the same give a device the same role.
proof fn lemma_role_alike(a: GraphView, b: GraphView, s: DeviceId)
    requires
        say_alike(a, b),
    ensures
        evaluator::effective_role(a, s) == evaluator::effective_role(b, s),
{
    assert(a.reading() == b.reading());
}

proof fn lemma_cited_alike(
    a: GraphView,
    b: GraphView,
    s: DeviceId,
    cited: Seq<FactId>,
    visited: Set<FactId>,
    n: int,
)
    requires
        say_alike(a, b),
        a.facts.dom().finite(),
    ensures
        evaluator::tier_of_cited(a, s, cited, visited, n) == evaluator::tier_of_cited(
            b,
            s,
            cited,
            visited,
            n,
        ),
    decreases a.facts.dom().difference(visited).len(), 1int, n,
{
    if n > 0 {
        lemma_cited_alike(a, b, s, cited, visited, n - 1);
        lemma_head_alike(a, b, s, cited[n - 1], visited);
    }
}

proof fn lemma_head_alike(
    a: GraphView,
    b: GraphView,
    s: DeviceId,
    head: FactId,
    visited: Set<FactId>,
)
    requires
        say_alike(a, b),
        a.facts.dom().finite(),
    ensures
        evaluator::tier_of_head(a, s, head, visited) == evaluator::tier_of_head(
            b,
            s,
            head,
            visited,
        ),
    decreases a.facts.dom().difference(visited).len(), 0int, 0int,
{
    if !visited.contains(head) && a.facts.contains_key(head) {
        let f = a.facts[head];
        lemma_role_alike(a, b, s);
        lemma_past_alike(a, b, f);
        if let (Ok(x), Ok(y)) = (rebuild::causal_view(a, f), rebuild::causal_view(b, f)) {
            lemma_role_alike(x, y, s);
        }
        match f.content.body {
            BodyView::Resolution { cell, cited_heads, .. } => {
                if cell == (ExclusiveCell::Role { subject: s }) {
                    assert(reach::parent_edges(a.facts).dom() =~= a.facts.dom());
                    reach::lemma_unseen(reach::parent_edges(a.facts), visited, head);
                    lemma_cited_alike(
                        a,
                        b,
                        s,
                        cited_heads,
                        visited.insert(head),
                        cited_heads.len() as int,
                    );
                }
            },
            _ => {},
        }
    }
}

/// Graphs that say the same authorize the same.
proof fn lemma_authorized_alike(a: GraphView, b: GraphView, author: DeviceId, body: BodyView)
    requires
        say_alike(a, b),
        a.facts.dom().finite(),
    ensures
        evaluator::eval(a).authorizes(author, body) == evaluator::eval(b).authorizes(author, body),
        forall|s: DeviceId, r: Role| #[trigger]
            evaluator::eval(a).has_tier(s, r) == evaluator::eval(b).has_tier(s, r),
{
    assert(a.reading() == b.reading());
    assert forall|s: DeviceId| #[trigger] evaluator::eval(a).role(s) == evaluator::eval(b).role(
        s,
    ) by {
        lemma_role_alike(a, b, s);
    }
    match body {
        BodyView::Resolution { cell, cited_heads, .. } => {
            if let ExclusiveCell::Role { subject } = cell {
                lemma_cited_alike(
                    a,
                    b,
                    subject,
                    cited_heads,
                    Set::empty(),
                    cited_heads.len() as int,
                );
            }
        },
        BodyView::AuthorityLineageResolution { subject, cited_heads, .. } => {
            lemma_cited_alike(a, b, subject, cited_heads, Set::empty(), cited_heads.len() as int);
        },
        _ => {},
    }
    assert(evaluator::eval(a).tier_for(body) == evaluator::eval(b).tier_for(body));
    assert forall|s: DeviceId, r: Role| #[trigger] evaluator::eval(a).has_tier(s, r)
        == evaluator::eval(b).has_tier(s, r) by {
        assert(evaluator::eval(a).role(s) == evaluator::eval(b).role(s));
    }
    if !(body is SelfStandDown) {
        let tier = evaluator::eval(a).tier_for(body)->0;
        assert(evaluator::eval(a).has_tier(author, tier) == evaluator::eval(b).has_tier(
            author,
            tier,
        ));
    }
}

proof fn lemma_heads_checked_alike(
    a: GraphView,
    b: GraphView,
    f: FactView,
    cited: Seq<FactId>,
    n: int,
)
    requires
        a.facts == b.facts,
    ensures
        validation::heads_check(a, f, cited, n) == validation::heads_check(b, f, cited, n),
    decreases n,
{
    if n > 0 {
        lemma_heads_checked_alike(a, b, f, cited, n - 1);
    }
}

/// Graphs that say the same hold a candidate to the same.
proof fn lemma_checked_alike(a: GraphView, b: GraphView, f: FactView)
    requires
        say_alike(a, b),
        a.facts.dom().finite(),
    ensures
        validation::candidate_check(a, f) == validation::candidate_check(b, f),
        evaluator::noop(a, f.content.body) == evaluator::noop(b, f.content.body),
{
    reveal(validation::candidate_check);
    assert(a.reading() == b.reading());
    let author = f.content.author;
    let body = f.content.body;
    lemma_authorized_alike(a, b, author, body);
    assert forall|s: DeviceId| #[trigger] validation::carries_lineage(a, f, s)
        == validation::carries_lineage(b, f, s) by {}
    assert(validation::carries_lineages(a, f) == validation::carries_lineages(b, f)) by {
        assert forall|s: DeviceId| #[trigger] body.subjects(author).contains(
            s,
        ) implies validation::carries_lineage(a, f, s) == validation::carries_lineage(b, f, s) by {
            assert(validation::carries_lineage(a, f, s) == validation::carries_lineage(b, f, s));
        }
    }
    assert(validation::authority_check(a, f) == validation::authority_check(b, f));
    lemma_resolution_alike(a, b, f);
    lemma_proof_alike(a, b, f);
    assert forall|s: DeviceId| #[trigger] evaluator::eval(a).role(s) == evaluator::eval(b).role(
        s,
    ) by {
        lemma_role_alike(a, b, s);
    }
    assert(evaluator::noop(a, body) == evaluator::noop(b, body));
}

proof fn lemma_resolution_alike(a: GraphView, b: GraphView, f: FactView)
    requires
        say_alike(a, b),
    ensures
        validation::resolution_check(a, f) == validation::resolution_check(b, f),
{
    assert(a.reading() == b.reading());
    match f.content.body {
        BodyView::Resolution { cell, cited_heads, .. } => {
            lemma_heads_checked_alike(a, b, f, cited_heads, cited_heads.len() as int);
            assert forall|id: FactId| #[trigger] validation::advances_cell(a, cell, id)
                == validation::advances_cell(b, cell, id) by {}
        },
        BodyView::AuthorityLineageResolution { subject, .. } => {
            assert forall|id: FactId| #[trigger] validation::is_lineage_head(a, f, subject, id)
                == validation::is_lineage_head(b, f, subject, id) by {}
        },
        _ => {},
    }
}

proof fn lemma_proof_alike(a: GraphView, b: GraphView, f: FactView)
    requires
        say_alike(a, b),
        a.facts.dom().finite(),
        validation::carries_lineages(a, f) == validation::carries_lineages(b, f),
    ensures
        validation::proof_check(a, f) == validation::proof_check(b, f),
{
    let author = f.content.author;
    match f.content.body {
        BodyView::EvictionProof { target, evidence } => {
            lemma_authorized_alike(a, b, author, BodyView::Evict { target });
            assert forall|id: FactId| #[trigger] validation::is_vote(a, target, id)
                == validation::is_vote(b, target, id) by {
                if a.facts.contains_key(id) {
                    if let BodyView::Attestation { signer, .. } = a.facts[id].content.body {
                        assert(evaluator::eval(a).has_tier(signer, Role::Member)
                            == evaluator::eval(b).has_tier(signer, Role::Member));
                    }
                }
            }
        },
        BodyView::SelfStandDown { device_id, evidence } => {
            assert forall|id: FactId| #[trigger] validation::is_proof(a, device_id, id)
                == validation::is_proof(b, device_id, id) by {}
        },
        _ => {},
    }
}

/// The facts that a fact builds on.
pub open spec fn past_of(facts: Facts, f: FactView) -> Facts {
    facts.restrict(reach::reach(reach::input_edges(facts), f.inputs()))
}

/// What the rules say of a fact whose inputs are here: whether it would change
/// something, and what it is held to in its causal past.
pub open spec fn judged(g: GraphView, f: FactView) -> Result<(), SemanticError> {
    match validation::noop_for(g, f) {
        Err(e) => Err(e),
        Ok(Some(operation)) => Err(SemanticError::NoOp(operation)),
        Ok(None) => match rebuild::causal_view(g, f) {
            Err(e) => Err(e),
            Ok(past) => validation::candidate_check(past, f),
        },
    }
}

/// What a fact builds on can be read where its inputs are here.
pub proof fn lemma_past_read(g: GraphView, f: FactView)
    requires
        soundness::is_sound(g),
        f.inputs().subset_of(g.facts.dom()),
    ensures
        ({
            let ids = reach::reach(reach::input_edges(g.facts), f.inputs());
            &&& ids.subset_of(g.facts.dom())
            &&& ids.finite()
            &&& past_of(g.facts, f).dom() == ids
            &&& rebuild::causal_view(g, f) == (if ids == g.facts.dom() {
                Ok::<GraphView, SemanticError>(g)
            } else {
                rebuild::scoped_whole(g, ids)
            })
        }),
{
    reveal(rebuild::causal_view);
    let facts = g.facts;
    let edges = reach::input_edges(facts);
    assert(edges.dom() =~= facts.dom());
    fact::lemma_inputs_finite(f);
    ordset::lemma_listing(f.inputs());
    assert(f.dependencies().to_set() == f.inputs());
    reach::walk_collects_what_is_reachable(edges, f.dependencies());
    assert(reach::closed(edges, facts.dom())) by {
        assert forall|x: FactId, y: FactId|
            facts.dom().contains(x) && edges.contains_key(x) && #[trigger] edges[x].contains(
                y,
            ) implies #[trigger] facts.dom().contains(y) by {
            assert(facts.contains_key(x));
            fact::lemma_inputs_finite(facts[x]);
            ordset::lemma_listing(facts[x].inputs());
            assert(facts[x].inputs().contains(y));
        }
    }
    reach::lemma_reach_least(edges, f.inputs(), facts.dom());
    let ids = reach::reach(edges, f.inputs());
    vstd::set_lib::lemma_set_subset_finite(facts.dom(), ids);
    assert(past_of(facts, f).dom() =~= ids);
    if ids.len() == facts.dom().len() {
        vstd::set_lib::lemma_subset_equality(ids, facts.dom());
    }
}

/// A receiver that holds nothing but the past of a fact sees it as one that
/// holds more.
proof fn lemma_whole_and_part(g: GraphView, h: GraphView, f: FactView)
    requires
        soundness::is_sound(g),
        soundness::is_sound(h),
        g.setting == h.setting,
        f.inputs().subset_of(g.facts.dom()),
        f.inputs().subset_of(h.facts.dom()),
        past_of(g.facts, f) == past_of(h.facts, f),
        past_of(g.facts, f) == g.facts,
    ensures
        rebuild::causal_view(g, f) == Ok::<GraphView, SemanticError>(g),
        rebuild::causal_view(h, f) matches Ok(c) && say_alike(g, c),
{
    lemma_past_read(g, f);
    lemma_past_read(h, f);
    let ids = reach::reach(reach::input_edges(h.facts), f.inputs());
    assert(g.facts.dom() == ids);
    assert(reach::reach(reach::input_edges(g.facts), f.inputs()) == g.facts.dom());
    assert(g.reading() == exactness::reading_of(g.facts));
    if ids == h.facts.dom() {
        assert(h.facts =~= g.facts);
        assert(h.reading() == g.reading());
        assert(say_alike(g, h));
    } else {
        assert(h.facts.restrict(ids) == g.facts);
        assert(accounting::residency(canon::index_of(g.facts)) == g.ledger.index_bytes);
        refit::scoped_part_has_the_indexes(h, ids);
        let c = rebuild::scoped_whole(h, ids)->Ok_0;
        assert(c.reading() == g.reading());
        assert(say_alike(g, c));
    }
}

/// Two receivers that hold the same past of a fact, whose inputs are here,
/// judge it alike: whether it is redundant, and what the rules say of it.
/// What else reached them plays no part.
pub proof fn receivers_judge_alike(g: GraphView, h: GraphView, f: FactView)
    requires
        soundness::is_sound(g),
        soundness::is_sound(h),
        g.setting == h.setting,
        f.inputs().subset_of(g.facts.dom()),
        f.inputs().subset_of(h.facts.dom()),
        past_of(g.facts, f) == past_of(h.facts, f),
    ensures
        validation::noop_for(g, f) == validation::noop_for(h, f),
        judged(g, f) == judged(h, f),
{
    lemma_past_read(g, f);
    lemma_past_read(h, f);
    let a = reach::reach(reach::input_edges(g.facts), f.inputs());
    let b = reach::reach(reach::input_edges(h.facts), f.inputs());
    assert(a == b);
    if a == g.facts.dom() {
        assert(past_of(g.facts, f) =~= g.facts);
        lemma_whole_and_part(g, h, f);
        lemma_checked_alike(g, rebuild::causal_view(h, f)->Ok_0, f);
    } else if b == h.facts.dom() {
        assert(past_of(h.facts, f) =~= h.facts);
        lemma_whole_and_part(h, g, f);
        lemma_checked_alike(h, rebuild::causal_view(g, f)->Ok_0, f);
    } else {
        assert(rebuild::scoped(g, a) == rebuild::scoped(h, b));
        assert(rebuild::causal_view(g, f) == rebuild::causal_view(h, f));
    }
}

/// Planning the relations to selectors that are here is refused for want of
/// room alone.
proof fn lemma_ids_refused(
    g: GraphView,
    all: Facts,
    st: PlanView,
    selector: FactId,
    selected: FactId,
    ids: Seq<FactId>,
    n: int,
)
    requires
        canon::is_history(all),
        0 <= n <= ids.len(),
        forall|i: int| 0 <= i < ids.len() ==> all.contains_key(#[trigger] ids[i]),
    ensures
        provenance::plan_ids(g, all, st, selector, selected, ids, n) matches Err(e)
            ==> e is CapacityExceeded,
    decreases n,
{
    if n > 0 {
        lemma_ids_refused(g, all, st, selector, selected, ids, n - 1);
        assert(all.contains_key(ids[n - 1]));
        continuity::lemma_walkable(all, ids[n - 1]);
    }
}

proof fn lemma_contexts_refused(
    g: GraphView,
    all: Facts,
    st: PlanView,
    contexts: Map<FactId, FactId>,
    list: Seq<FactId>,
    n: int,
)
    requires
        canon::is_history(all),
        0 <= n <= list.len(),
        forall|i: int| 0 <= i < list.len() ==> all.contains_key(contexts[#[trigger] list[i]]),
    ensures
        provenance::plan_contexts(g, all, st, contexts, list, n) matches Err(e)
            ==> e is CapacityExceeded,
    decreases n,
{
    if n > 0 {
        lemma_contexts_refused(g, all, st, contexts, list, n - 1);
        let s = list[n - 1];
        assert(all.contains_key(contexts[s]));
        continuity::lemma_walkable(all, contexts[s]);
        if let Ok(before) = provenance::plan_contexts(g, all, st, contexts, list, n - 1) {
            let ids = order::ascending(all.dom());
            ordset::lemma_listing(all.dom());
            assert forall|i: int| 0 <= i < ids.len() implies all.contains_key(
                #[trigger] ids[i],
            ) by {
                assert(ids.contains(ids[i]));
            }
            lemma_ids_refused(g, all, before, s, contexts[s], ids, ids.len() as int);
        }
    }
}

/// Planning a fact that follows a history is refused for want of room alone.
proof fn lemma_plan_refused(g: GraphView, f: FactView)
    requires
        canon::is_history(g.facts),
        g.fence.staged_cold_pending == 0,
        canon::extends(g.facts, f),
    ensures
        provenance::planned(g, f) matches Err(e) ==> e is CapacityExceeded,
{
    reveal(provenance::planned);
    let all = g.facts.insert(f.id, f);
    canon::lemma_extended(g.facts, f);
    if let (Ok(st), Ok(contexts)) = (provenance::plan_start(g, f), provenance::contexts_of(g, f)) {
        let list = order::ascending(contexts.dom());
        assert(contexts.dom().subset_of(set![f.id]));
        vstd::set_lib::lemma_set_subset_finite(set![f.id], contexts.dom());
        ordset::lemma_listing(contexts.dom());
        assert forall|i: int| 0 <= i < list.len() implies all.contains_key(
            contexts[#[trigger] list[i]],
        ) by {
            assert(list.contains(list[i]));
            assert(contexts.dom().contains(list[i]));
            assert(f.is_selector());
            assert(contexts[f.id] == canon::selected(f));
        }
        lemma_contexts_refused(g, all, st, contexts, list, list.len() as int);
    }
}

/// Pricing a fact that follows a history is refused for want of room alone.
proof fn lemma_price_refused(g: GraphView, f: FactView)
    requires
        canon::is_history(g.facts),
        g.fence.staged_cold_pending == 0,
        canon::extends(g.facts, f),
        accounting::measure(g.setting.limits, f) is Ok,
    ensures
        costs::cost_of(g, f) matches Err(e) ==> e is CapacityExceeded,
        costs::cost_of(g, f) matches Ok(c) ==> c.missing.len() == 0,
        costs::exact_delta(g, f) matches Err(e) ==> e is CapacityExceeded,
{
    lemma_plan_refused(g, f);
    assert(provenance::provenance_delta(g, f) matches Err(e) ==> e is CapacityExceeded);
    assert(costs::exact_delta(g, f) matches Err(e) ==> e is CapacityExceeded) by {
        reveal(costs::exact_delta);
    }
    assert(costs::index_reserve(g, f) matches Err(e) ==> e is CapacityExceeded) by {
        reveal(costs::index_reserve);
    }
    reveal(costs::cost_of);
    assert(costs::missing_inputs(g, f) =~= Set::<FactId>::empty());
    ordset::lemma_listing(costs::missing_inputs(g, f));
}

proof fn lemma_bounds_refused(g: GraphView, f: FactView, cost: CostView)
    ensures
        costs::admitted_bounds(g, f, cost, false) matches Err(e) ==> e is CapacityExceeded,
{
}

/// Entering a cleared fact is refused for want of room alone.
proof fn lemma_entry_refused(
    g: GraphView,
    f: FactView,
    cost: CostView,
    before: ProjectionView,
    delta: provenance::IndexResidencyDelta,
    rows: Map<FactId, RowView>,
)
    ensures
        match admission::entered(g, f, cost, false, before, Set::empty(), delta, rows).1 {
            Ok(a) => a is Inserted,
            Err(e) => e is CapacityExceeded,
        },
{
    reveal(admission::entered);
}

/// A fact that passes the rules is refused for want of room alone.
proof fn lemma_room_alone(g: GraphView, f: FactView)
    requires
        soundness::is_sound(g),
        soundness::is_matched(f),
        f.checked.refusal is None,
        f.content.mesh_context == g.setting.context_id,
        validation::domain_check(g) is Ok,
        !g.facts.contains_key(f.id),
        !g.quarantine.facts.contains_key(f.id),
        f.inputs().subset_of(g.facts.dom()),
        accounting::measure(g.setting.limits, f) is Ok,
        judged(g, f) is Ok,
    ensures
        match admission::admitted(g, f).1 {
            Ok(a) => a is Inserted,
            Err(e) => e is CapacityExceeded,
        },
{
    if f.is_selector() {
        assert(f.content.body.support().contains(canon::selected(f)));
        assert(f.inputs().contains(canon::selected(f)));
    }
    assert(canon::extends(g.facts, f));
    lemma_plan_refused(g, f);
    lemma_price_refused(g, f);
    assert(!f.content.parents.contains(f.id)) by {
        if f.content.parents.contains(f.id) {
            assert(f.inputs().contains(f.id));
        }
    }
    assert(admission::screened(g, f) == (match costs::cost_of(g, f) {
        Err(e) => Err::<Option<CostView>, SemanticError>(e),
        Ok(c) => Ok(Some(c)),
    })) by {
        reveal(admission::screened);
    }
    reveal(admission::offered);
    if let Ok(cost) = costs::cost_of(g, f) {
        lemma_bounds_refused(g, f, cost);
        assert(admission::cleared(g, f, cost, false) matches Err(e) ==> e is CapacityExceeded) by {
            reveal(admission::cleared);
        }
        if let Ok((delta, rows)) = admission::cleared(g, f, cost, false) {
            lemma_entry_refused(
                GraphView { cache: None, ..g },
                f,
                cost,
                projection::base(g),
                delta,
                rows,
            );
        }
    }
}

/// Whether a fact is accepted does not depend on the receiver: what one
/// receiver inserts, another one that holds the same past of it inserts too,
/// or has no room for.
pub proof fn acceptance_does_not_depend_on_the_receiver(g: GraphView, h: GraphView, f: FactView)
    requires
        soundness::is_sound(g),
        soundness::is_sound(h),
        soundness::is_matched(f),
        g.setting == h.setting,
        f.inputs().subset_of(h.facts.dom()),
        past_of(g.facts, f) == past_of(h.facts, f),
        !h.facts.contains_key(f.id),
        !h.quarantine.facts.contains_key(f.id),
        admission::admitted(g, f).1 == Ok::<AdmissionView, SemanticError>(AdmissionView::Inserted),
    ensures
        match admission::admitted(h, f).1 {
            Ok(a) => a is Inserted,
            Err(e) => e is CapacityExceeded,
        },
{
    lemma_inserted_was_judged(g, f);
    receivers_judge_alike(g, h, f);
    lemma_room_alone(h, f);
}

/// What is inserted passed the rules.
proof fn lemma_inserted_was_judged(g: GraphView, f: FactView)
    requires
        soundness::is_sound(g),
        admission::admitted(g, f).1 == Ok::<AdmissionView, SemanticError>(AdmissionView::Inserted),
    ensures
        f.checked.refusal is None,
        f.content.mesh_context == g.setting.context_id,
        validation::domain_check(g) is Ok,
        !g.facts.contains_key(f.id),
        !g.quarantine.facts.contains_key(f.id),
        f.inputs().subset_of(g.facts.dom()),
        accounting::measure(g.setting.limits, f) is Ok,
        judged(g, f) is Ok,
{
    reveal(admission::offered);
    reveal(admission::screened);
    reveal(admission::cleared);
    reveal(costs::cost_of);
    admission::lemma_screened(g, f);
    let cost = admission::screened(g, f)->Ok_0->0;
    assert(cost.missing.len() == 0);
    assert forall|x: FactId| #[trigger] f.inputs().contains(x) implies g.facts.dom().contains(
        x,
    ) by {
        if !g.facts.contains_key(x) {
            assert(costs::missing_inputs(g, f).contains(x));
            assert(cost.missing.to_set().contains(x));
        }
    }
}

/// The past of a fact stays when another one joins beside it.
proof fn lemma_past_beside(facts: Facts, f: FactView, other: FactView)
    requires
        canon::is_history(facts),
        canon::extends(facts, other),
        f.inputs().subset_of(facts.dom()),
    ensures
        past_of(facts.insert(other.id, other), f) == past_of(facts, f),
{
    canon::lemma_inputs_within(facts, other, f.inputs());
    assert(past_of(facts.insert(other.id, other), f) =~= past_of(facts, f));
}

/// What an inserted fact leaves of a sound graph.
proof fn lemma_inserted(g: GraphView, f: FactView)
    requires
        soundness::is_sound(g),
        soundness::is_matched(f),
        g.facts.dom().len() < usize::MAX,
        admission::has_room(g, 1),
        admission::admitted(g, f).1 == Ok::<AdmissionView, SemanticError>(AdmissionView::Inserted),
    ensures
        ({
            let h = admission::admitted(g, f).0;
            &&& soundness::is_sound(h)
            &&& h.facts == g.facts.insert(f.id, f)
            &&& h.quarantine.facts == g.quarantine.facts
            &&& h.setting == g.setting
            &&& canon::extends(g.facts, f)
        }),
{
    soundness::admission_keeps_graph_sound(g, f);
    exactness::offer_keeps_graph_exact(g, f, false, None, None);
    reveal(admission::offered);
    reveal(admission::entered);
}

/// The order in which two facts arrive does not matter, where neither builds
/// on the other: if both are inserted one way round, they are inserted the
/// other way round too, unless room is wanting, and both ways end with the
/// same facts, indexes and projection.
pub proof fn two_facts_arrive_in_any_order(g: GraphView, a: FactView, b: FactView)
    requires
        soundness::is_sound(g),
        soundness::is_matched(a),
        soundness::is_matched(b),
        a.id != b.id,
        a.inputs().subset_of(g.facts.dom()),
        b.inputs().subset_of(g.facts.dom()),
        g.facts.dom().len() + 1 < usize::MAX,
        admission::has_room(g, 2),
    ensures
        ({
            let inserted = Ok::<AdmissionView, SemanticError>(AdmissionView::Inserted);
            let (x, first) = admission::admitted(g, a);
            let (xy, second) = admission::admitted(x, b);
            let (y, third) = admission::admitted(g, b);
            let (yx, fourth) = admission::admitted(y, a);
            first == inserted && second == inserted ==> {
                &&& third matches Err(e) ==> e is CapacityExceeded
                &&& third matches Ok(o) ==> o is Inserted
                &&& third == inserted ==> (fourth matches Err(e) ==> e is CapacityExceeded)
                &&& third == inserted ==> (fourth matches Ok(o) ==> o is Inserted)
                &&& third == inserted && fourth == inserted ==> {
                    &&& xy.facts == yx.facts
                    &&& xy.index == yx.index
                    &&& projection::current(xy) == projection::current(yx)
                }
            }
        }),
{
    let inserted = Ok::<AdmissionView, SemanticError>(AdmissionView::Inserted);
    let (x, first) = admission::admitted(g, a);
    let (xy, second) = admission::admitted(x, b);
    let (y, third) = admission::admitted(g, b);
    let (yx, fourth) = admission::admitted(y, a);
    if first == inserted && second == inserted {
        lemma_inserted(g, a);
        admission::lemma_offered(g, a, false, None, None, Set::empty());
        assert(x.facts.dom() =~= g.facts.dom().insert(a.id));
        lemma_grown_room(g, a);
        lemma_inserted(x, b);
        lemma_past_beside(g.facts, b, a);
        acceptance_does_not_depend_on_the_receiver(x, g, b);
        if third == inserted {
            lemma_inserted(g, b);
            lemma_grown_room(g, b);
            assert(y.facts.dom() =~= g.facts.dom().insert(b.id));
            lemma_past_beside(g.facts, a, b);
            acceptance_does_not_depend_on_the_receiver(g, y, a);
            if fourth == inserted {
                lemma_inserted(y, a);
                assert(xy.facts =~= yx.facts);
                assert(xy.reading() == yx.reading());
            }
        }
    }
}

/// An inserted fact uses up one revision.
proof fn lemma_grown_room(g: GraphView, f: FactView)
    requires
        g.indexes_current(),
        admission::has_room(g, 2),
    ensures
        admission::admitted(g, f).1 == Ok::<AdmissionView, SemanticError>(AdmissionView::Inserted)
            ==> admission::has_room(admission::admitted(g, f).0, 1),
{
    reveal(admission::offered);
    reveal(admission::entered);
}

} // verus!
