//! What a fact must carry of the lineages of its subjects, what a resolution
//! must cite, and which facts count.

use vstd::prelude::*;

use crate::admission;
use crate::admission::AdmissionView;
use crate::authority;
use crate::authority::Gap;
use crate::canon;
use crate::content::{BodyView, ExclusiveCell};
use crate::costs::CostView;
use crate::device::DeviceId;
use crate::error::SemanticError;
use crate::exactness;
use crate::fact::{Facts, FactView};
use crate::graph::{GraphView, ProjectionView, Reading};
use crate::ids::FactId;
use crate::order;
use crate::ordset;
use crate::reach;
use crate::rebuild;
use crate::soundness;
use crate::validation;

verus! {

proof fn lemma_two_heads(heads: Set<FactId>, x: FactId, y: FactId)
    requires
        heads.finite(),
        heads.contains(x),
        heads.contains(y),
        x != y,
    ensures
        heads.len() > 1,
        order::ascending(heads).len() > 1,
{
    ordset::lemma_listing(heads);
    let list = order::ascending(heads);
    assert(list.contains(x) && list.contains(y));
    if list.len() <= 1 {
        assert(list[0] == x && list[0] == y);
    }
}

/// A fact that joined carries, for its author and for the device that it is
/// about, exactly the heads that their lineages had in its past.  Where such a
/// lineage was forked, the fact is a selection in that lineage, a resolution of
/// the role of that device that cites exactly its heads, or a resolution of the
/// membership of a device other than its author.
pub proof fn what_joined_carries_its_lineages(
    g: GraphView,
    f: FactView,
    reserved: bool,
    supplied: Option<ProjectionView>,
    cost: Option<CostView>,
    staged: Set<FactId>,
    s: DeviceId,
)
    requires
        admission::offered(g, f, reserved, supplied, cost, staged).1 == Ok::<
            AdmissionView,
            SemanticError,
        >(AdmissionView::Inserted),
        f.content.body.subjects(f.content.author).contains(s),
    ensures
        ({
            let past = rebuild::causal_view(rebuild::ensured(g), f)->Ok_0;
            let heads = past.reading().authority_heads(s);
            &&& f.uses(s)
            &&& forall|x: FactId| #[trigger]
                heads.contains(x) <==> f.predecessors(s)->0.contains(x)
            &&& forall|x: FactId, y: FactId|
                heads.contains(x) && heads.contains(y) && x != y ==> match f.content.body {
                    BodyView::AuthorityLineageResolution { subject, .. } => subject == s,
                    BodyView::Resolution { cell: ExclusiveCell::Membership { subject }, .. } =>
                    subject == s && s != f.content.author,
                    BodyView::Resolution {
                        cell: ExclusiveCell::Role { subject },
                        cited_heads,
                        ..
                    } => subject == s && cited_heads == order::ascending(heads),
                    _ => false,
                }
        }),
{
    reveal(admission::offered);
    reveal(admission::entered);
    reveal(admission::cleared);
    reveal(validation::candidate_check);
    let past = rebuild::causal_view(rebuild::ensured(g), f)->Ok_0;
    let heads = past.reading().authority_heads(s);
    assert(validation::carries_lineages(past, f));
    assert(validation::carries_lineage(past, f, s));
    let list = f.predecessors(s)->0;
    assert(list.to_set() == heads);
    assert forall|x: FactId| #[trigger] heads.contains(x) <==> list.contains(x) by {
        assert(list.to_set().contains(x) <==> list.contains(x));
    }
    vstd::seq_lib::seq_to_set_is_finite(list);
    assert forall|x: FactId, y: FactId|
        heads.contains(x) && heads.contains(y) && x != y implies match f.content.body {
        BodyView::AuthorityLineageResolution { subject, .. } => subject == s,
        BodyView::Resolution { cell: ExclusiveCell::Membership { subject }, .. } => subject == s
            && s != f.content.author,
        BodyView::Resolution { cell: ExclusiveCell::Role { subject }, cited_heads, .. } => subject
            == s && cited_heads == order::ascending(heads),
        _ => false,
    } by {
        lemma_two_heads(heads, x, y);
    }
}

/// A fact that leaves out a head of the lineage of one of its subjects, names
/// one that is none, or carries no lineage for a subject is refused.
pub proof fn what_breaks_a_lineage_is_refused(past: GraphView, f: FactView, s: DeviceId, x: FactId)
    requires
        f.content.body.subjects(f.content.author).contains(s),
        !f.uses(s) || f.predecessors(s)->0.contains(x) != past.reading().authority_heads(
            s,
        ).contains(x),
    ensures
        validation::candidate_check(past, f) is Err,
        match f.content.body {
            BodyView::Resolution { .. } => true,
            BodyView::AuthorityLineageResolution { .. } => true,
            BodyView::MembershipAdmit { .. } => validation::candidate_check(past, f) == Err::<
                (),
                SemanticError,
            >(SemanticError::UnauthorizedMembershipAdmit),
            BodyView::Attestation { .. } => validation::candidate_check(past, f) == Err::<
                (),
                SemanticError,
            >(SemanticError::UnauthorizedAttestation),
            BodyView::EvictionProof { .. } => validation::candidate_check(past, f) == Err::<
                (),
                SemanticError,
            >(SemanticError::UnauthorizedEviction),
            BodyView::SelfStandDown { .. } => validation::candidate_check(past, f) == Err::<
                (),
                SemanticError,
            >(SemanticError::InvalidStandDownProof),
            _ => validation::candidate_check(past, f) == Err::<(), SemanticError>(
                SemanticError::UnauthorizedRoleGrant,
            ),
        },
{
    reveal(validation::candidate_check);
    assert(!validation::carries_lineage(past, f, s)) by {
        if f.uses(s) {
            let list = f.predecessors(s)->0;
            assert(list.to_set().contains(x) <==> list.contains(x));
        }
    }
    assert(!validation::carries_lineages(past, f));
}

/// An ordinary operation on a forked lineage is refused: it is neither a
/// selection in the lineage nor a resolution.
pub proof fn forked_lineages_take_no_ordinary_operation(
    past: GraphView,
    f: FactView,
    s: DeviceId,
    x: FactId,
    y: FactId,
)
    requires
        f.content.body.subjects(f.content.author).contains(s),
        past.reading().authority_heads(s).finite(),
        past.reading().authority_heads(s).contains(x),
        past.reading().authority_heads(s).contains(y),
        x != y,
        !(f.content.body is Resolution),
        !(f.content.body is AuthorityLineageResolution),
    ensures
        validation::candidate_check(past, f) is Err,
{
    reveal(validation::candidate_check);
    lemma_two_heads(past.reading().authority_heads(s), x, y);
    assert(!validation::carries_lineage(past, f, s));
    assert(!validation::carries_lineages(past, f));
}

/// A fact that carries exactly the heads of an unforked lineage carries it.
pub proof fn exact_heads_carry_an_unforked_lineage(past: GraphView, f: FactView, s: DeviceId)
    requires
        f.uses(s),
        forall|x: FactId| #[trigger]
            past.reading().authority_heads(s).contains(x) <==> f.predecessors(s)->0.contains(x),
        forall|x: FactId, y: FactId|
            past.reading().authority_heads(s).contains(x) && past.reading().authority_heads(
                s,
            ).contains(y) ==> x == y,
    ensures
        validation::carries_lineage(past, f, s),
{
    let heads = past.reading().authority_heads(s);
    let list = f.predecessors(s)->0;
    assert forall|x: FactId| #[trigger] list.to_set().contains(x) <==> heads.contains(x) by {
        assert(list.to_set().contains(x) <==> list.contains(x));
    }
    assert(list.to_set() =~= heads);
    vstd::seq_lib::seq_to_set_is_finite(list);
    ordset::lemma_listing(heads);
    let all = order::ascending(heads);
    if heads.len() > 1 {
        assert(all.contains(all[0]) && all.contains(all[1]));
        assert(heads.contains(all[0]) && heads.contains(all[1]));
    }
}

/// A resolution that its past accepts selects one of the heads that it cites,
/// cites at least two, in order and without repeats, has all of them among its
/// signed parents, and cites exactly the facts that contend for its cell, or
/// for the lineage, in its past.
pub proof fn resolutions_cite_all_that_contends(past: GraphView, f: FactView)
    requires
        validation::resolution_check(past, f) is Ok,
    ensures
        match f.content.body {
            BodyView::Resolution { cell, cited_heads, selected_head } => {
                &&& cited_heads.contains(selected_head)
                &&& cited_heads.len() >= 2
                &&& order::is_ascending(cited_heads)
                &&& forall|x: FactId| #[trigger]
                    cited_heads.contains(x) ==> f.content.parents.contains(x)
                        && past.facts.contains_key(x) && past.facts[x].advances(cell)
                &&& forall|x: FactId| #[trigger]
                    cited_heads.contains(x) <==> past.reading().raw_heads(cell).contains(x)
            },
            BodyView::AuthorityLineageResolution { subject, cited_heads, selected_head } => {
                &&& cited_heads.contains(selected_head)
                &&& cited_heads.len() >= 2
                &&& order::is_ascending(cited_heads)
                &&& forall|x: FactId| #[trigger]
                    cited_heads.contains(x) ==> f.content.parents.contains(x)
                        && past.facts.contains_key(x) && past.facts[x].uses(subject)
                &&& forall|x: FactId| #[trigger]
                    cited_heads.contains(x) <==> past.reading().authority_heads(subject).contains(
                        x,
                    )
            },
            _ => true,
        },
{
    match f.content.body {
        BodyView::Resolution { cell, cited_heads, .. } => {
            lemma_cited(cited_heads);
            assert forall|x: FactId| #[trigger] cited_heads.contains(
                x,
            ) implies f.content.parents.contains(x) && past.facts.contains_key(x)
                && past.facts[x].advances(cell) by {
                let i = choose|i: int| 0 <= i < cited_heads.len() && cited_heads[i] == x;
                lemma_heads_pass(past, f, cited_heads, i, cited_heads.len() as int);
                assert(validation::advances_cell(past, cell, cited_heads[i]));
            }
            assert forall|x: FactId| #[trigger] cited_heads.contains(
                x,
            ) <==> past.reading().raw_heads(cell).contains(x) by {
                assert(cited_heads.to_set().contains(x) <==> cited_heads.contains(x));
            }
        },
        BodyView::AuthorityLineageResolution { subject, cited_heads, .. } => {
            lemma_cited(cited_heads);
            assert forall|x: FactId| #[trigger] cited_heads.contains(
                x,
            ) implies f.content.parents.contains(x) && past.facts.contains_key(x)
                && past.facts[x].uses(subject) by {
                let i = choose|i: int| 0 <= i < cited_heads.len() && cited_heads[i] == x;
                assert(validation::is_lineage_head(past, f, subject, cited_heads[i]));
            }
            assert forall|x: FactId| #[trigger] cited_heads.contains(
                x,
            ) <==> past.reading().authority_heads(subject).contains(x) by {
                assert(cited_heads.to_set().contains(x) <==> cited_heads.contains(x));
            }
        },
        _ => {},
    }
}

proof fn lemma_cited(cited: Seq<FactId>)
    ensures
        validation::is_citation(cited) <==> cited.len() >= 2 && order::is_ascending(cited),
{
    vstd::seq_lib::seq_to_set_is_finite(cited);
    ordset::lemma_listing(cited.to_set());
    if order::is_ascending(cited) {
        order::lemma_ascending_unique(cited, order::ascending(cited.to_set()));
    }
}

proof fn lemma_heads_pass(c: GraphView, f: FactView, cited: Seq<FactId>, i: int, n: int)
    requires
        0 <= i < n,
        validation::heads_check(c, f, cited, n) is Ok,
    ensures
        c.facts.contains_key(cited[i]),
        f.content.parents.contains(cited[i]),
    decreases n,
{
    if i < n - 1 {
        lemma_heads_pass(c, f, cited, i, n - 1);
    }
}

proof fn lemma_heads_all_pass(c: GraphView, f: FactView, cited: Seq<FactId>, n: int)
    requires
        0 <= n <= cited.len(),
        forall|x: FactId| #[trigger]
            cited.contains(x) ==> c.facts.contains_key(x) && f.content.parents.contains(x),
    ensures
        validation::heads_check(c, f, cited, n) is Ok,
    decreases n,
{
    if n > 0 {
        assert(cited.contains(cited[n - 1]));
        lemma_heads_all_pass(c, f, cited, n - 1);
    }
}

/// A resolution that does so is accepted.
pub proof fn complete_citations_are_accepted(past: GraphView, f: FactView)
    requires
        match f.content.body {
            BodyView::Resolution { cell, cited_heads, selected_head } => {
                &&& cited_heads.contains(selected_head)
                &&& cited_heads.len() >= 2
                &&& order::is_ascending(cited_heads)
                &&& forall|x: FactId| #[trigger]
                    cited_heads.contains(x) ==> f.content.parents.contains(x)
                        && past.facts.contains_key(x) && past.facts[x].advances(cell)
                &&& forall|x: FactId| #[trigger]
                    cited_heads.contains(x) <==> past.reading().raw_heads(cell).contains(x)
            },
            BodyView::AuthorityLineageResolution { subject, cited_heads, selected_head } => {
                &&& cited_heads.contains(selected_head)
                &&& cited_heads.len() >= 2
                &&& order::is_ascending(cited_heads)
                &&& forall|x: FactId| #[trigger]
                    cited_heads.contains(x) ==> f.content.parents.contains(x)
                        && past.facts.contains_key(x) && past.facts[x].uses(subject)
                &&& forall|x: FactId| #[trigger]
                    cited_heads.contains(x) <==> past.reading().authority_heads(subject).contains(
                        x,
                    )
            },
            _ => true,
        },
    ensures
        validation::resolution_check(past, f) is Ok,
{
    match f.content.body {
        BodyView::Resolution { cell, cited_heads, .. } => {
            lemma_cited(cited_heads);
            lemma_heads_all_pass(past, f, cited_heads, cited_heads.len() as int);
            assert forall|i: int| 0 <= i < cited_heads.len() implies validation::advances_cell(
                past,
                cell,
                #[trigger] cited_heads[i],
            ) by {
                assert(cited_heads.contains(cited_heads[i]));
            }
            assert(past.reading().raw_heads(cell) =~= cited_heads.to_set()) by {
                assert forall|x: FactId| #[trigger] past.reading().raw_heads(cell).contains(
                    x,
                ) <==> cited_heads.to_set().contains(x) by {
                    assert(cited_heads.to_set().contains(x) <==> cited_heads.contains(x));
                }
            }
        },
        BodyView::AuthorityLineageResolution { subject, cited_heads, .. } => {
            lemma_cited(cited_heads);
            assert forall|i: int| 0 <= i < cited_heads.len() implies validation::is_lineage_head(
                past,
                f,
                subject,
                #[trigger] cited_heads[i],
            ) by {
                assert(cited_heads.contains(cited_heads[i]));
            }
            assert(past.reading().authority_heads(subject) =~= cited_heads.to_set()) by {
                assert forall|x: FactId| #[trigger]
                    past.reading().authority_heads(subject).contains(
                        x,
                    ) <==> cited_heads.to_set().contains(x) by {
                    assert(cited_heads.to_set().contains(x) <==> cited_heads.contains(x));
                }
            }
        },
        _ => {},
    }
}

/// How a resolution is refused: for a selection that it does not cite; for
/// fewer than two cited heads, or heads out of order, or a head that it does
/// not carry; for a head that is not there; and for heads that are not those
/// that contend.
pub proof fn resolutions_are_refused_for_what_they_lack(past: GraphView, f: FactView)
    ensures
        match f.content.body {
            BodyView::Resolution { cell, cited_heads, selected_head } => {
                let result = validation::resolution_check(past, f);
                &&& !cited_heads.contains(selected_head) ==> result == Err::<(), SemanticError>(
                    SemanticError::ResolutionSelectionNotCited,
                )
                &&& cited_heads.contains(selected_head) && !(cited_heads.len() >= 2
                    && order::is_ascending(cited_heads)) ==> result == Err::<(), SemanticError>(
                    SemanticError::IncompleteResolution,
                )
                &&& cited_heads.contains(selected_head) && cited_heads.len() >= 2
                    && order::is_ascending(cited_heads) && (forall|x: FactId| #[trigger]
                    cited_heads.contains(x) ==> f.content.parents.contains(x)
                        && past.facts.contains_key(x) && past.facts[x].advances(cell))
                    && cited_heads.to_set() != past.reading().raw_heads(cell) ==> result == Err::<
                    (),
                    SemanticError,
                >(SemanticError::ResolutionNotCurrent)
            },
            BodyView::AuthorityLineageResolution { subject, cited_heads, selected_head } => {
                let result = validation::resolution_check(past, f);
                &&& !cited_heads.contains(selected_head) ==> result == Err::<(), SemanticError>(
                    SemanticError::ResolutionSelectionNotCited,
                )
                &&& cited_heads.contains(selected_head) && !(cited_heads.len() >= 2
                    && order::is_ascending(cited_heads)) ==> result == Err::<(), SemanticError>(
                    SemanticError::IncompleteResolution,
                )
                &&& cited_heads.contains(selected_head) && cited_heads.len() >= 2
                    && order::is_ascending(cited_heads) && (exists|x: FactId| #[trigger]
                    cited_heads.contains(x) && !(f.content.parents.contains(x)
                        && past.facts.contains_key(x) && past.facts[x].uses(subject))) ==> result
                    == Err::<(), SemanticError>(SemanticError::InvalidAuthorityUse)
                &&& cited_heads.contains(selected_head) && cited_heads.len() >= 2
                    && order::is_ascending(cited_heads) && (forall|x: FactId| #[trigger]
                    cited_heads.contains(x) ==> f.content.parents.contains(x)
                        && past.facts.contains_key(x) && past.facts[x].uses(subject))
                    && cited_heads.to_set() != past.reading().authority_heads(subject) ==> result
                    == Err::<(), SemanticError>(SemanticError::ResolutionNotCurrent)
            },
            _ => validation::resolution_check(past, f) is Ok,
        },
{
    match f.content.body {
        BodyView::Resolution { cell, cited_heads, .. } => {
            lemma_cited(cited_heads);
            if forall|x: FactId| #[trigger]
                cited_heads.contains(x) ==> f.content.parents.contains(x)
                    && past.facts.contains_key(x) && past.facts[x].advances(cell) {
                lemma_heads_all_pass(past, f, cited_heads, cited_heads.len() as int);
                assert forall|i: int| 0 <= i < cited_heads.len() implies validation::advances_cell(
                    past,
                    cell,
                    #[trigger] cited_heads[i],
                ) by {
                    assert(cited_heads.contains(cited_heads[i]));
                }
            }
        },
        BodyView::AuthorityLineageResolution { subject, cited_heads, .. } => {
            lemma_cited(cited_heads);
            if forall|x: FactId| #[trigger]
                cited_heads.contains(x) ==> f.content.parents.contains(x)
                    && past.facts.contains_key(x) && past.facts[x].uses(subject) {
                assert forall|i: int|
                    0 <= i < cited_heads.len() implies validation::is_lineage_head(
                    past,
                    f,
                    subject,
                    #[trigger] cited_heads[i],
                ) by {
                    assert(cited_heads.contains(cited_heads[i]));
                }
            } else {
                let x = choose|x: FactId| #[trigger]
                    cited_heads.contains(x) && !(f.content.parents.contains(x)
                        && past.facts.contains_key(x) && past.facts[x].uses(subject));
                let i = choose|i: int| 0 <= i < cited_heads.len() && cited_heads[i] == x;
                assert(!validation::is_lineage_head(past, f, subject, cited_heads[i]));
            }
        },
        _ => {},
    }
}

proof fn lemma_first_bad_head(c: GraphView, f: FactView, cited: Seq<FactId>, i: int, n: int)
    requires
        0 <= i < n,
        forall|j: int|
            0 <= j < i ==> c.facts.contains_key(#[trigger] cited[j]) && f.content.parents.contains(
                cited[j],
            ),
        !c.facts.contains_key(cited[i]) || !f.content.parents.contains(cited[i]),
    ensures
        validation::heads_check(c, f, cited, n) == Err::<(), SemanticError>(
            if !c.facts.contains_key(cited[i]) {
                SemanticError::UnknownResolutionHead(cited[i])
            } else {
                SemanticError::IncompleteResolution
            },
        ),
    decreases n,
{
    if i < n - 1 {
        lemma_first_bad_head(c, f, cited, i, n - 1);
    } else {
        lemma_heads_before(c, f, cited, i);
    }
}

proof fn lemma_heads_before(c: GraphView, f: FactView, cited: Seq<FactId>, n: int)
    requires
        forall|j: int|
            0 <= j < n ==> c.facts.contains_key(#[trigger] cited[j]) && f.content.parents.contains(
                cited[j],
            ),
    ensures
        validation::heads_check(c, f, cited, n) is Ok,
    decreases n,
{
    if n > 0 {
        assert(c.facts.contains_key(cited[n - 1]));
        lemma_heads_before(c, f, cited, n - 1);
    }
}

/// The first cited head of a resolution that is not there is named in the
/// refusal; one that is there and is no signed parent makes the resolution
/// incomplete.
pub proof fn the_first_bad_head_is_named(
    past: GraphView,
    f: FactView,
    cell: ExclusiveCell,
    cited: Seq<FactId>,
    selected: FactId,
    i: int,
)
    requires
        f.content.body == (BodyView::Resolution {
            cell,
            cited_heads: cited,
            selected_head: selected,
        }),
        cited.contains(selected),
        cited.len() >= 2,
        order::is_ascending(cited),
        0 <= i < cited.len(),
        forall|j: int|
            0 <= j < i ==> past.facts.contains_key(#[trigger] cited[j])
                && f.content.parents.contains(cited[j]),
        !past.facts.contains_key(cited[i]) || !f.content.parents.contains(cited[i]),
    ensures
        validation::resolution_check(past, f) == Err::<(), SemanticError>(
            if !past.facts.contains_key(cited[i]) {
                SemanticError::UnknownResolutionHead(cited[i])
            } else {
                SemanticError::IncompleteResolution
            },
        ),
{
    lemma_cited(cited);
    lemma_first_bad_head(past, f, cited, i, cited.len() as int);
}

/// A resolution that joined was accepted by its past.
pub proof fn resolutions_that_joined_were_complete(
    g: GraphView,
    f: FactView,
    reserved: bool,
    supplied: Option<ProjectionView>,
    cost: Option<CostView>,
    staged: Set<FactId>,
)
    requires
        admission::offered(g, f, reserved, supplied, cost, staged).1 == Ok::<
            AdmissionView,
            SemanticError,
        >(AdmissionView::Inserted),
    ensures
        ({
            let past = rebuild::causal_view(rebuild::ensured(g), f)->Ok_0;
            match f.content.body {
                BodyView::Resolution { cell, cited_heads, selected_head } => cited_heads.contains(
                    selected_head,
                ) && cited_heads.len() >= 2 && forall|x: FactId| #[trigger]
                    cited_heads.contains(x) <==> past.reading().raw_heads(cell).contains(x),
                BodyView::AuthorityLineageResolution { subject, cited_heads, selected_head } =>
                cited_heads.contains(selected_head) && cited_heads.len() >= 2 && forall|
                    x: FactId,
                | #[trigger]
                    cited_heads.contains(x) <==> past.reading().authority_heads(subject).contains(
                        x,
                    ),
                _ => true,
            }
        }),
{
    reveal(admission::offered);
    reveal(admission::entered);
    reveal(admission::cleared);
    reveal(validation::candidate_check);
    resolutions_cite_all_that_contends(rebuild::causal_view(rebuild::ensured(g), f)->Ok_0, f);
}

/// The heads of a lineage in a sound graph are the admitted facts that advance
/// it and that no other such fact has behind it.
pub proof fn lineage_heads_are_the_latest_facts(g: GraphView, s: DeviceId, x: FactId)
    requires
        soundness::is_sound(g),
    ensures
        g.reading().authority_heads(s).contains(x) <==> {
            &&& g.facts.contains_key(x)
            &&& g.facts[x].head_subjects().contains(s)
            &&& forall|m: FactId| #[trigger]
                g.facts.contains_key(m) && g.facts[m].head_subjects().contains(s)
                    ==> !reach::is_dominated(g.facts, g.facts[m].inputs(), x)
        },
{
    assert(g.reading() == exactness::reading_of(g.facts));
    exactness::lemma_heads_read(g.facts, s);
    let members = exactness::lineage_members(g.facts, s);
    assert forall|m: FactId| #[trigger] members.contains(m) <==> g.facts.contains_key(m)
        && g.facts[m].head_subjects().contains(s) by {}
    if exactness::lineage_heads(g.facts, s).contains(x) {
        assert forall|m: FactId| #[trigger]
            g.facts.contains_key(m) && g.facts[m].head_subjects().contains(
                s,
            ) implies !reach::is_dominated(g.facts, g.facts[m].inputs(), x) by {
            assert(members.contains(m));
        }
    }
}

/// The heads of a cell in a sound graph are the admitted facts that advance it
/// and that no other such fact has behind it.
pub proof fn cell_heads_are_the_latest_facts(g: GraphView, cell: ExclusiveCell, x: FactId)
    requires
        soundness::is_sound(g),
    ensures
        g.reading().raw_heads(cell).contains(x) <==> {
            &&& g.facts.contains_key(x)
            &&& g.facts[x].advances(cell)
            &&& forall|m: FactId| #[trigger]
                g.facts.contains_key(m) && g.facts[m].advances(cell) ==> !reach::is_dominated(
                    g.facts,
                    g.facts[m].inputs(),
                    x,
                )
        },
{
    assert(g.reading() == exactness::reading_of(g.facts));
    exactness::lemma_cell_heads_read(g.facts, cell);
    let members = exactness::cell_members(g.facts, cell);
    assert forall|m: FactId| #[trigger] members.contains(m) <==> g.facts.contains_key(m)
        && g.facts[m].advances(cell) by {}
    if g.reading().raw_heads(cell).contains(x) {
        assert forall|m: FactId| #[trigger]
            g.facts.contains_key(m) && g.facts[m].advances(cell) implies !reach::is_dominated(
            g.facts,
            g.facts[m].inputs(),
            x,
        ) by {
            assert(members.contains(m));
        }
    }
}

proof fn lemma_relevant_grows(
    g: Reading,
    pending: Set<FactId>,
    relevant: Seq<FactId>,
    x: FactId,
)
    requires
        pending.finite(),
        relevant.contains(x),
    ensures
        authority::relevant_from(g, pending, relevant) matches Some(all) ==> all.contains(x),
    decreases pending.len(),
{
    if pending != Set::<FactId>::empty() {
        let top = authority::maxima(g.index.provenance, pending);
        if top != Set::<FactId>::empty() {
            authority::lemma_fewer(pending, top);
            let more = order::ascending(
                top.filter(|c: FactId| authority::all_permit(g, relevant, c)),
            );
            let i = choose|i: int| 0 <= i < relevant.len() && relevant[i] == x;
            assert((relevant + more)[i] == x);
            lemma_relevant_grows(g, pending.difference(top), relevant + more, x);
        }
    }
}

/// A latest selection in the lineage of a subject leaves every fact out that
/// it does not select: one that is neither behind what it selects, nor follows
/// that, nor follows the selection, counts for nothing.
pub proof fn losing_branches_do_not_count(
    g: GraphView,
    id: FactId,
    s: DeviceId,
    selector: FactId,
)
    requires
        soundness::is_sound(g),
        g.facts.contains_key(id),
        g.facts[id].content.body.subjects(g.facts[id].content.author).contains(s),
        !g.facts[id].payload_local(s),
        g.facts.contains_key(selector),
        canon::selects_for(g.facts[selector], s),
        g.reading().maximal_selectors(s, g.reading().authority_heads(s)).contains(selector),
        ({
            let edges = reach::parent_edges(g.facts);
            let selected = canon::selected(g.facts[selector]);
            &&& !reach::reach(edges, set![id]).contains(selector)
            &&& !reach::reach(edges, set![id]).contains(selected)
            &&& !reach::reach(edges, set![selected]).contains(id)
        }),
    ensures
        !authority::is_authoritative(g.reading(), id),
{
    let r = g.reading();
    assert(r == exactness::reading_of(g.facts));
    authority::counting_is_by_subject(r, id);
    let heads = r.authority_heads(s);
    let pending = r.ancestral_selectors(s, heads);
    exactness::lemma_ancestral(g.facts, s);
    let top = authority::maxima(r.index.provenance, pending);
    assert(top.contains(selector));
    assert(pending.subset_of(g.facts.dom())) by {
        assert forall|x: FactId| #[trigger] pending.contains(x) implies g.facts.dom().contains(
            x,
        ) by {}
    }
    vstd::set_lib::lemma_set_subset_finite(g.facts.dom(), pending);
    vstd::set_lib::lemma_set_subset_finite(pending, top);
    assert(!authority::permits(r, selector, id)) by {
        assert(!canon::is_related(g.facts, id, selector));
        assert(authority::relation_of(r.index.provenance, id, selector) is None);
    }
    match r.relevant_selectors(s, heads) {
        None => {},
        Some(all) => {
            let none = Seq::<FactId>::empty();
            let first = top.filter(|c: FactId| authority::all_permit(r, none, c));
            assert(first =~= top);
            ordset::lemma_listing(top);
            let list = none + order::ascending(first);
            assert(list =~= order::ascending(top));
            assert(list.contains(selector));
            assert(pending != Set::<FactId>::empty());
            authority::lemma_fewer(pending, top);
            lemma_relevant_grows(r, pending.difference(top), list, selector);
            assert(all.contains(selector));
            let i = choose|i: int| 0 <= i < all.len() && all[i] == selector;
            assert(!authority::permits(r, all[i], id));
            assert(!authority::all_permit(r, all, id));
        },
    }
}

/// A fact on the branch that the one selection in a lineage selects, behind
/// what it selects, following that, or following the selection, holds its
/// place in the lineage, where it signs for what its signed parents show.
pub proof fn the_selected_branch_keeps_counting(
    g: GraphView,
    f: FactView,
    s: DeviceId,
    selector: FactId,
)
    requires
        soundness::is_sound(g),
        g.facts.contains_key(f.id),
        g.facts[f.id] == f,
        !f.payload_local(s),
        g.facts.contains_key(selector),
        canon::selects_for(g.facts[selector], s),
        forall|x: FactId| #[trigger]
            g.facts.contains_key(x) && canon::selects_for(g.facts[x], s) ==> x == selector,
        forall|x: FactId, y: FactId|
            g.reading().authority_heads(s).contains(x) && g.reading().authority_heads(s).contains(y)
                ==> x == y,
        f.uses(s),
        authority::heads_from_parents(g.facts, None, f, s) == Ok::<Seq<FactId>, Gap>(
            f.predecessors(s)->0,
        ),
        ({
            let edges = reach::parent_edges(g.facts);
            let selected = canon::selected(g.facts[selector]);
            ||| reach::reach(edges, set![f.id]).contains(selector)
            ||| reach::reach(edges, set![f.id]).contains(selected)
            ||| reach::reach(edges, set![selected]).contains(f.id)
        }),
    ensures
        authority::subject_verdict(g.reading(), None, f, s) == Ok::<bool, Gap>(true),
{
    let r = g.reading();
    lemma_read_selections(g, s);
    let pending = r.ancestral_selectors(s, r.authority_heads(s));
    assert forall|x: FactId| #[trigger] pending.contains(x) <==> x == selector by {}
    assert(pending =~= set![selector]);
    sound_graphs_record_their_selections(g, s);
    assert(canon::is_related(g.facts, f.id, selector));
    assert(authority::permits(r, selector, f.id)) by {
        assert(r.index.provenance == canon::provenance_of(g.facts));
    }
    lemma_one_selection(r, f, s, selector);
}

/// What a sound graph reads of the selections in a lineage.
proof fn lemma_read_selections(g: GraphView, s: DeviceId)
    requires
        soundness::is_sound(g),
    ensures
        g.reading() == exactness::reading_of(g.facts),
        g.reading().authority_heads(s).finite(),
        g.reading().ancestral_selectors(s, g.reading().authority_heads(s))
            == exactness::selectors_for(g.facts, s),
{
    exactness::lemma_heads_read(g.facts, s);
    exactness::lemma_ancestral(g.facts, s);
}

/// Under the one selection in an unforked lineage a fact that it permits, and
/// that signs for what its parents show, holds its place.
proof fn lemma_one_selection(r: Reading, f: FactView, s: DeviceId, selector: FactId)
    requires
        r.provenance_complete(s),
        r.authority_heads(s).finite(),
        forall|x: FactId, y: FactId|
            r.authority_heads(s).contains(x) && r.authority_heads(s).contains(y) ==> x == y,
        r.ancestral_selectors(s, r.authority_heads(s)) == set![selector],
        authority::permits(r, selector, f.id),
        f.uses(s),
        authority::heads_from_parents(r.facts, None, f, s) == Ok::<Seq<FactId>, Gap>(
            f.predecessors(s)->0,
        ),
    ensures
        authority::subject_verdict(r, None, f, s) == Ok::<bool, Gap>(true),
{
    let heads = r.authority_heads(s);
    ordset::lemma_listing(heads);
    let list = order::ascending(heads);
    if list.len() > 1 {
        assert(list.contains(list[0]) && list.contains(list[1]));
        assert(heads.contains(list[0]) && heads.contains(list[1]));
    }
    let pending = set![selector];
    let top = authority::maxima(r.index.provenance, pending);
    assert(top =~= pending);
    ordset::lemma_listing(top);
    let latest = order::ascending(top);
    assert(top.len() == 1);
    assert(latest.contains(selector));
    assert(latest =~= seq![selector]);
    let none = Seq::<FactId>::empty();
    let first = top.filter(|c: FactId| authority::all_permit(r, none, c));
    assert(first =~= top);
    assert(none + order::ascending(first) =~= seq![selector]);
    assert(pending.difference(top) =~= Set::<FactId>::empty());
    assert(authority::relevant_from(r, Set::<FactId>::empty(), seq![selector]) == Some(
        seq![selector],
    ));
    assert(pending.contains(selector));
    authority::lemma_fewer(pending, top);
    assert(r.relevant_selectors(s, heads) == Some(seq![selector]));
    assert(authority::all_permit(r, seq![selector], f.id));
}

/// The selections in a lineage are all on record exactly where each of them is
/// recorded as behind itself, with what it selects.
pub proof fn each_selection_must_be_on_record(g: Reading, s: DeviceId)
    ensures
        g.provenance_complete(s) <==> forall|x: crate::graph::Selection| #[trigger]
            crate::multimap::at(g.index.selectors, s).contains(x)
                ==> g.index.provenance.contains_key(x.selector)
                && g.index.provenance[x.selector].contains_key(x.selector)
                && g.index.provenance[x.selector][x.selector].post_selector
                && g.index.provenance[x.selector][x.selector].selected == x.selected,
{
    if g.provenance_complete(s) {
        assert forall|x: crate::graph::Selection| #[trigger]
            crate::multimap::at(g.index.selectors, s).contains(
                x,
            ) implies g.index.provenance.contains_key(x.selector)
            && g.index.provenance[x.selector].contains_key(x.selector)
            && g.index.provenance[x.selector][x.selector].post_selector
            && g.index.provenance[x.selector][x.selector].selected == x.selected by {
            assert(authority::relation_of(g.index.provenance, x.selector, x.selector) is Some);
        }
    }
}

/// Without current indexes the facts themselves say what the heads of a cell
/// and of a lineage are: those that no other of them has among its signed
/// ancestors.
pub proof fn facts_answer_where_indexes_do_not(
    g: Reading,
    cell: ExclusiveCell,
    s: DeviceId,
    x: FactId,
)
    requires
        !g.current,
    ensures
        g.raw_heads(cell).contains(x) <==> g.facts.contains_key(x) && g.facts[x].advances(cell)
            && forall|o: FactId| #[trigger]
            g.facts.contains_key(o) && g.facts[o].advances(cell) && o != x ==> !reach::is_ancestor(
                g.facts,
                x,
                o,
            ),
        g.authority_heads(s).contains(x) <==> g.facts.contains_key(x) && g.facts[x].takes_part(s)
            && forall|o: FactId| #[trigger]
            g.facts.contains_key(o) && g.facts[o].takes_part(s) && o != x ==> !reach::is_ancestor(
                g.facts,
                x,
                o,
            ),
        g.known_cells().contains(cell) <==> exists|o: FactId| #[trigger]
            g.facts.contains_key(o) && g.facts[o].advances(cell),
{
    let cells = g.facts.dom().filter(|id: FactId| g.facts[id].advances(cell));
    let uses = g.facts.dom().filter(|id: FactId| g.facts[id].takes_part(s));
    assert forall|o: FactId| #[trigger] g.facts.contains_key(o) implies (cells.contains(o)
        <==> g.facts[o].advances(cell)) && (uses.contains(o) <==> g.facts[o].takes_part(s)) by {}
    if g.raw_heads(cell).contains(x) {
        assert forall|o: FactId| #[trigger]
            g.facts.contains_key(o) && g.facts[o].advances(cell) && o
                != x implies !reach::is_ancestor(g.facts, x, o) by {
            assert(cells.contains(o));
        }
    }
    if g.authority_heads(s).contains(x) {
        assert forall|o: FactId| #[trigger]
            g.facts.contains_key(o) && g.facts[o].takes_part(s) && o
                != x implies !reach::is_ancestor(g.facts, x, o) by {
            assert(uses.contains(o));
        }
    }
    if g.facts.contains_key(x) && g.facts[x].advances(cell) && forall|o: FactId| #[trigger]
        g.facts.contains_key(o) && g.facts[o].advances(cell) && o != x ==> !reach::is_ancestor(
            g.facts,
            x,
            o,
        ) {
        assert(authority::is_top(g.facts, cells, x)) by {
            assert forall|o: FactId| cells.contains(o) && o != x implies !#[trigger]
            reach::is_ancestor(g.facts, x, o) by {
                assert(g.facts.contains_key(o));
            }
        }
    }
    if g.facts.contains_key(x) && g.facts[x].takes_part(s) && forall|o: FactId| #[trigger]
        g.facts.contains_key(o) && g.facts[o].takes_part(s) && o != x ==> !reach::is_ancestor(
            g.facts,
            x,
            o,
        ) {
        assert(authority::is_top(g.facts, uses, x)) by {
            assert forall|o: FactId| uses.contains(o) && o != x implies !#[trigger]
            reach::is_ancestor(g.facts, x, o) by {
                assert(g.facts.contains_key(o));
            }
        }
    }
}

/// A forked lineage has no selected branch.
pub proof fn forks_select_no_branch(g: Reading, s: DeviceId, x: FactId, y: FactId)
    requires
        g.authority_heads(s).finite(),
        g.authority_heads(s).contains(x),
        g.authority_heads(s).contains(y),
        x != y,
    ensures
        g.lineage(s).selected_branch is None,
        !g.is_singular(s),
        g.lineage(s).heads.contains(x),
        g.lineage(s).heads.contains(y),
        order::is_ascending(g.lineage(s).heads),
{
    lemma_two_heads(g.authority_heads(s), x, y);
    ordset::lemma_listing(g.authority_heads(s));
}

/// A sound graph has all selections in every lineage on record.
pub proof fn sound_graphs_record_their_selections(g: GraphView, s: DeviceId)
    requires
        soundness::is_sound(g),
    ensures
        g.reading().provenance_complete(s),
{
    let r = g.reading();
    assert(r == exactness::reading_of(g.facts));
    assert forall|x: crate::graph::Selection| #[trigger]
        crate::multimap::at(r.index.selectors, s).contains(x) implies (authority::relation_of(
        r.index.provenance,
        x.selector,
        x.selector,
    ) matches Some(rel) && rel.post_selector && rel.selected == x.selected) by {
        let edges = reach::parent_edges(g.facts);
        reach::lemma_reach_closed(edges, set![x.selector]);
        assert(reach::reach(edges, set![x.selector]).contains(x.selector)) by {
            assert(set![x.selector].contains(x.selector));
        }
        assert(canon::is_related(g.facts, x.selector, x.selector));
    }
}

proof fn lemma_planned_frame(g: GraphView, ids: Seq<FactId>, n: int)
    ensures
        rebuild::with_all_planned(g, ids, n) matches Ok(h) ==> h.facts == g.facts && h.setting
            == g.setting,
    decreases n,
{
    if n > 0 {
        lemma_planned_frame(g, ids, n - 1);
    }
}

/// A fact is judged by what it builds on and by nothing else that reached the
/// graph: the past that it is held to has exactly its inputs and what is behind
/// them, as the graph has them, under the graph's own setting.
pub proof fn facts_are_judged_by_what_they_build_on(
    g: GraphView,
    f: FactView,
    past: GraphView,
    x: FactId,
)
    requires
        soundness::is_sound(g),
        f.inputs().subset_of(g.facts.dom()),
        rebuild::causal_view(g, f) == Ok::<GraphView, SemanticError>(past),
    ensures
        past.facts.contains_key(x) <==> reach::is_dominated(g.facts, f.inputs(), x),
        past.facts.contains_key(x) ==> past.facts[x] == g.facts[x],
        past.setting == g.setting,
{
    crate::impartial::lemma_past_read(g, f);
    let ids = reach::reach(reach::input_edges(g.facts), f.inputs());
    if ids == g.facts.dom() {
        assert(past == g);
    } else {
        let start = GraphView { facts: g.facts.restrict(ids), ..crate::graph::started(g.setting) };
        rebuild::lemma_rebuilt_frame(start);
        let part = rebuild::scoped(g, ids);
        let list = rebuild::selector_ids(part.facts);
        lemma_planned_frame(part, list, list.len() as int);
        assert(past.facts == g.facts.restrict(ids));
    }
}

/// In a lineage without a fork and without a selection, a fact holds its place
/// exactly where it signs for what its signed parents show.
pub proof fn unforked_lineages_count_what_is_signed(g: Reading, f: FactView, s: DeviceId)
    requires
        g.provenance_complete(s),
        g.authority_heads(s).finite(),
        forall|x: FactId, y: FactId|
            g.authority_heads(s).contains(x) && g.authority_heads(s).contains(y) ==> x == y,
        g.ancestral_selectors(s, g.authority_heads(s)) == Set::<FactId>::empty(),
        authority::heads_from_parents(g.facts, None, f, s) is Ok,
    ensures
        authority::subject_verdict(g, None, f, s) == Ok::<bool, Gap>(
            f.uses(s) && f.predecessors(s)->0 == authority::heads_from_parents(
                g.facts,
                None,
                f,
                s,
            )->Ok_0,
        ),
{
    let heads = g.authority_heads(s);
    ordset::lemma_listing(heads);
    let list = order::ascending(heads);
    if list.len() > 1 {
        assert(list.contains(list[0]) && list.contains(list[1]));
        assert(heads.contains(list[0]) && heads.contains(list[1]));
    }
    let latest = g.maximal_selectors(s, heads);
    assert(latest =~= Set::<FactId>::empty());
    ordset::lemma_listing(latest);
    assert(g.relevant_selectors(s, heads) == Some(Seq::<FactId>::empty()));
}

proof fn lemma_direct(facts: Facts, parents: Seq<FactId>, s: DeviceId, n: int)
    requires
        0 <= n <= parents.len(),
    ensures
        forall|x: FactId| #[trigger]
            authority::direct_uses(facts, parents, s, n).contains(x) <==> (exists|i: int|
                0 <= i < n && parents[i] == x) && facts.contains_key(x) && facts[x].takes_part(s),
    decreases n,
{
    if n > 0 {
        lemma_direct(facts, parents, s, n - 1);
        let rest = authority::direct_uses(facts, parents, s, n - 1);
        let id = parents[n - 1];
        assert forall|x: FactId| #[trigger]
            authority::direct_uses(facts, parents, s, n).contains(x) <==> (exists|i: int|
                0 <= i < n && parents[i] == x) && facts.contains_key(x) && facts[x].takes_part(
                s,
            ) by {
            assert(rest.push(id).contains(x) <==> rest.contains(x) || x == id) by {
                if rest.contains(x) {
                    let i = choose|i: int| 0 <= i < rest.len() && rest[i] == x;
                    assert(rest.push(id)[i] == x);
                }
                if x == id {
                    assert(rest.push(id)[rest.len() as int] == x);
                }
            }
        }
    }
}

proof fn lemma_beaten(facts: Facts, id: FactId, others: Seq<FactId>)
    ensures
        authority::is_beaten(facts, None, id, others) == Ok::<bool, Gap>(
            exists|o: FactId| #[trigger]
                others.contains(o) && o != id && reach::is_ancestor(facts, id, o),
        ),
    decreases others.len(),
{
    if others.len() > 0 {
        let rest = others.drop_first();
        lemma_beaten(facts, id, rest);
        assert forall|o: FactId| #[trigger] others.contains(o) <==> o == others[0]
            || rest.contains(o) by {
            if others.contains(o) {
                let i = choose|i: int| 0 <= i < others.len() && others[i] == o;
                if i > 0 {
                    assert(rest[i - 1] == o);
                }
            }
            if rest.contains(o) {
                let i = choose|i: int| 0 <= i < rest.len() && rest[i] == o;
                assert(others[i + 1] == o);
            }
        }
        assert(others.contains(others[0]));
        if exists|o: FactId| #[trigger]
            rest.contains(o) && o != id && reach::is_ancestor(facts, id, o) {
            let o = choose|o: FactId| #[trigger]
                rest.contains(o) && o != id && reach::is_ancestor(facts, id, o);
            assert(others.contains(o));
        }
    }
}

proof fn lemma_unbeaten(facts: Facts, ids: Seq<FactId>, n: int)
    requires
        0 <= n <= ids.len(),
    ensures
        authority::unbeaten(facts, None, ids, n) is Ok,
        forall|x: FactId| #[trigger]
            authority::unbeaten(facts, None, ids, n)->Ok_0.contains(x) <==> (exists|i: int|
                0 <= i < n && ids[i] == x) && !exists|o: FactId| #[trigger]
                ids.contains(o) && o != x && reach::is_ancestor(facts, x, o),
    decreases n,
{
    if n > 0 {
        lemma_unbeaten(facts, ids, n - 1);
        lemma_beaten(facts, ids[n - 1], ids);
        let kept = authority::unbeaten(facts, None, ids, n - 1)->Ok_0;
        let id = ids[n - 1];
        assert forall|x: FactId| #[trigger]
            authority::unbeaten(facts, None, ids, n)->Ok_0.contains(x) <==> (exists|i: int|
                0 <= i < n && ids[i] == x) && !exists|o: FactId| #[trigger]
                ids.contains(o) && o != x && reach::is_ancestor(facts, x, o) by {
            assert(kept.push(id).contains(x) <==> kept.contains(x) || x == id) by {
                if kept.contains(x) {
                    let i = choose|i: int| 0 <= i < kept.len() && kept[i] == x;
                    assert(kept.push(id)[i] == x);
                }
                if x == id {
                    assert(kept.push(id)[kept.len() as int] == x);
                }
            }
        }
    }
}

/// What a fact's signed parents show of a lineage: the parents that take part
/// in it and that are no signed ancestors of another such parent.
pub proof fn parents_show_the_latest_uses(g: Reading, f: FactView, s: DeviceId, x: FactId)
    ensures
        authority::heads_from_parents(g.facts, None, f, s) is Ok,
        authority::heads_from_parents(g.facts, None, f, s)->Ok_0.contains(x) <==> {
            &&& f.content.parents.contains(x)
            &&& g.facts.contains_key(x)
            &&& g.facts[x].takes_part(s)
            &&& !exists|o: FactId| #[trigger]
                f.content.parents.contains(o) && g.facts.contains_key(o) && g.facts[o].takes_part(s)
                    && o != x && reach::is_ancestor(g.facts, x, o)
        },
{
    let parents = f.content.parents;
    let n = parents.len() as int;
    lemma_direct(g.facts, parents, s, n);
    let direct = authority::direct_uses(g.facts, parents, s, n);
    lemma_unbeaten(g.facts, direct, direct.len() as int);
    assert forall|o: FactId| #[trigger] direct.contains(o) <==> parents.contains(o)
        && g.facts.contains_key(o) && g.facts[o].takes_part(s) by {
        if parents.contains(o) {
            let i = choose|i: int| 0 <= i < parents.len() && parents[i] == o;
            assert(0 <= i < n && parents[i] == o);
        }
    }
    assert((exists|i: int| 0 <= i < direct.len() && direct[i] == x) <==> direct.contains(x));
    if exists|o: FactId| #[trigger]
        direct.contains(o) && o != x && reach::is_ancestor(g.facts, x, o) {
        let o = choose|o: FactId| #[trigger]
            direct.contains(o) && o != x && reach::is_ancestor(g.facts, x, o);
        assert(parents.contains(o));
    }
    if exists|o: FactId| #[trigger]
        parents.contains(o) && g.facts.contains_key(o) && g.facts[o].takes_part(s) && o != x
            && reach::is_ancestor(g.facts, x, o) {
        let o = choose|o: FactId| #[trigger]
            parents.contains(o) && g.facts.contains_key(o) && g.facts[o].takes_part(s) && o != x
                && reach::is_ancestor(g.facts, x, o);
        assert(direct.contains(o));
    }
}

/// A fact that rests on history that is no longer at hand is judged by the
/// heads, exactly where it grants or revokes a role and its parents are all
/// heads of that role's cell and of the lineages of its author and its target.
/// Any other is refused for something of that history.
pub proof fn absent_history_is_seen_by_its_heads(g: GraphView, f: FactView, x: FactId)
    requires
        g.facts.dom().finite(),
        g.indexes_current(),
        reach::reach(reach::input_edges(g.facts), f.inputs()).contains(x),
        !g.facts.contains_key(x),
    ensures
        match rebuild::causal_view(g, f) {
            Ok(past) => past == g && match f.content.body {
                BodyView::RoleGrant { target, .. } => carries_all_heads(g, f, target),
                BodyView::RoleRevoke { target } => carries_all_heads(g, f, target),
                _ => false,
            },
            Err(e) => (e matches SemanticError::MissingParent(y) && reach::reach(
                reach::input_edges(g.facts),
                f.inputs(),
            ).contains(y) && !g.facts.contains_key(y)) && match f.content.body {
                BodyView::RoleGrant { target, .. } => !carries_all_heads(g, f, target),
                BodyView::RoleRevoke { target } => !carries_all_heads(g, f, target),
                _ => true,
            },
        },
{
    reveal(rebuild::causal_view);
    crate::fact::lemma_inputs_finite(f);
    ordset::lemma_listing(f.inputs());
    let edges = reach::input_edges(g.facts);
    assert(edges.dom() =~= g.facts.dom());
    assert(f.dependencies().to_set() =~= f.inputs());
    reach::walk_collects_what_is_reachable(edges, f.dependencies());
    match f.content.body {
        BodyView::RoleGrant { target, .. } => {
            lemma_current_heads(g, f, target);
        },
        BodyView::RoleRevoke { target } => {
            lemma_current_heads(g, f, target);
        },
        _ => {},
    }
}

/// Whether the parents of a fact are all heads of the role of `target`, and of
/// the lineages of its author and of `target`.
pub open spec fn carries_all_heads(g: GraphView, f: FactView, target: DeviceId) -> bool {
    &&& forall|h: FactId| #[trigger]
        g.reading().raw_heads((ExclusiveCell::Role { subject: target })).contains(h)
            ==> f.content.parents.contains(h)
    &&& forall|h: FactId| #[trigger]
        g.reading().authority_heads(f.content.author).contains(h) ==> f.content.parents.contains(h)
    &&& forall|h: FactId| #[trigger]
        g.reading().authority_heads(target).contains(h) ==> f.content.parents.contains(h)
}

proof fn lemma_current_heads(g: GraphView, f: FactView, target: DeviceId)
    requires
        g.indexes_current(),
        match f.content.body {
            BodyView::RoleGrant { target: t, .. } => t == target,
            BodyView::RoleRevoke { target: t } => t == target,
            _ => false,
        },
    ensures
        rebuild::carries_current_heads(g, f) <==> carries_all_heads(g, f, target),
{
    let about = f.content.body.subjects(f.content.author);
    assert(about.contains(f.content.author) && about.contains(target));
    let cell = ExclusiveCell::Role { subject: target };
    assert(f.content.body.cells() =~= seq![cell]);
    assert(f.content.body.cells()[0] == cell);
    assert(f.advances(cell));
    assert forall|c: ExclusiveCell| f.advances(c) implies c == cell by {}
    assert forall|s: DeviceId| about.contains(s) implies s == f.content.author || s == target by {}
    if carries_all_heads(g, f, target) {
        assert forall|c: ExclusiveCell, h: FactId|
            f.advances(c) && #[trigger] g.reading().raw_heads(c).contains(
                h,
            ) implies f.content.parents.contains(h) by {
            assert(c == cell);
        }
        assert forall|s: DeviceId, h: FactId|
            about.contains(s) && #[trigger] g.reading().authority_heads(s).contains(
                h,
            ) implies f.content.parents.contains(h) by {
            assert(s == f.content.author || s == target);
        }
    }
}

} // verus!
