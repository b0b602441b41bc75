//! Signed facts and their canonical dependencies.

use vstd::prelude::*;

use crate::content;
use crate::content::{AuthorityUse, BodyView, ExclusiveCell, FactBody, UseView};
use crate::device::DeviceId;
use crate::error::SemanticError;
use crate::ids::{FactId, MeshContextId};
use crate::order;
use crate::ordset::{append_keys, copy_keys, same_keys, sort_unique, Duplicate, OrdSet};

verus! {

/// What the codec established of a signed fact: whether its signature and
/// canonical form hold, the identifier that its content hashes to, and the
/// length of its encoding, if it has one.
#[derive(Debug, Clone, Copy, PartialEq, Eq)]
pub struct Checked {
    pub refusal: Option<SemanticError>,
    pub content_id: FactId,
    pub encoded_bytes: Option<u64>,
}

/// What the content of a fact says.
#[verifier::ext_equal]
pub struct ContentView {
    pub mesh_context: MeshContextId,
    pub body: BodyView,
    pub author: DeviceId,
    pub parents: Seq<FactId>,
    pub authority_uses: Seq<UseView>,
}

/// What a signed fact says.
#[verifier::ext_equal]
pub struct FactView {
    pub id: FactId,
    pub content: ContentView,
    pub signature: Seq<char>,
    pub checked: Checked,
}

/// The signed content of a fact.
#[derive(Debug, PartialEq, Eq)]
pub struct FactContent {
    pub mesh_context: MeshContextId,
    pub body: FactBody,
    pub author: DeviceId,
    pub parents: Vec<FactId>,
    pub authority_uses: Vec<AuthorityUse>,
}

/// A content-addressed, signed fact.
#[derive(Debug, PartialEq, Eq)]
pub struct SignedFact {
    pub id: FactId,
    pub content: FactContent,
    pub signature: String,
    pub checked: Checked,
}

/// The views of a list of authority uses.
pub open spec fn uses_view(uses: Seq<AuthorityUse>) -> Seq<UseView> {
    uses.map_values(|u: AuthorityUse| u@)
}

impl View for FactContent {
    type V = ContentView;

    open spec fn view(&self) -> ContentView {
        ContentView {
            mesh_context: self.mesh_context,
            body: self.body@,
            author: self.author,
            parents: self.parents@,
            authority_uses: uses_view(self.authority_uses@),
        }
    }
}

impl View for SignedFact {
    type V = FactView;

    open spec fn view(&self) -> FactView {
        FactView {
            id: self.id,
            content: self.content@,
            signature: self.signature@,
            checked: self.checked,
        }
    }
}

fn copy_uses(uses: &Vec<AuthorityUse>) -> (r: Vec<AuthorityUse>)
    ensures
        uses_view(r@) == uses_view(uses@),
{
    let mut r: Vec<AuthorityUse> = Vec::new();
    let n: usize = uses.len();
    for i in 0..n
        invariant
            n == uses@.len(),
            r@.len() == i,
            forall|j: int| 0 <= j < i ==> (#[trigger] r@[j])@ == uses@[j]@,
    {
        r.push(uses[i].duplicate());
    }
    assert(uses_view(r@) =~= uses_view(uses@));
    r
}

impl Duplicate for FactContent {
    fn duplicate(&self) -> (r: Self) {
        FactContent {
            mesh_context: self.mesh_context,
            body: self.body.duplicate(),
            author: self.author,
            parents: copy_keys(&self.parents),
            authority_uses: copy_uses(&self.authority_uses),
        }
    }
}

/// A copy of a text.
fn copy_text(text: &String) -> (r: String)
    ensures
        r@ == text@,
{
    text.as_str().to_owned()
}

impl Duplicate for SignedFact {
    fn duplicate(&self) -> (r: Self) {
        SignedFact {
            id: self.id,
            content: self.content.duplicate(),
            signature: copy_text(&self.signature),
            checked: self.checked,
        }
    }
}

impl FactView {
    /// The direct causal inputs of a fact.
    pub open spec fn inputs(self) -> Set<FactId> {
        self.content.parents.to_set().union(cited(self.content.authority_uses)).union(
            self.content.body.support(),
        )
    }

    /// The complete canonical dependency list of a fact.
    pub open spec fn dependencies(self) -> Seq<FactId> {
        order::ascending(self.inputs())
    }

    /// The facts that name one another as equal.
    pub open spec fn same_as(self, other: FactView) -> bool {
        self.id == other.id && self.content == other.content && self.signature == other.signature
    }

    /// Whether the fact is a typed selector of an authority lineage.
    pub open spec fn is_selector(self) -> bool {
        self.content.body is AuthorityLineageResolution
    }

    /// Whether the fact carries a lineage for `subject`.
    pub open spec fn uses(self, subject: DeviceId) -> bool {
        exists|i: int|
            0 <= i < self.content.authority_uses.len()
                && #[trigger] self.content.authority_uses[i].subject == subject
    }

    /// The place of the first lineage for `subject`.
    pub open spec fn use_at(self, subject: DeviceId) -> int {
        self.content.authority_uses.map_values(|u: UseView| u.subject).index_of_first(subject)->0
    }

    /// The signed predecessors in the first lineage for `subject`.
    pub open spec fn predecessors(self, subject: DeviceId) -> Option<Seq<FactId>> {
        if self.uses(subject) {
            Some(self.content.authority_uses[self.use_at(subject)].predecessors)
        } else {
            None
        }
    }

    /// Whether the lineage that the fact carries for `subject` is a witness
    /// for its payload alone.
    pub open spec fn payload_local(self, subject: DeviceId) -> bool {
        payload_local(self.content.body, self.content.author, subject)
    }

    /// Whether the fact takes part in the authority lineage of `subject`.
    pub open spec fn takes_part(self, subject: DeviceId) -> bool {
        self.uses(subject) && !self.payload_local(subject)
    }

    /// The subjects whose authority lineage the fact takes part in.
    pub open spec fn participants(self) -> Set<DeviceId> {
        Set::new(|s: DeviceId| self.takes_part(s))
    }

    /// The subjects whose authority heads the fact advances.
    pub open spec fn head_subjects(self) -> Set<DeviceId> {
        self.content.body.subjects(self.content.author).filter(
            |s: DeviceId| !self.payload_local(s),
        )
    }

    /// Whether the fact advances `cell`.
    pub open spec fn advances(self, cell: ExclusiveCell) -> bool {
        self.content.body.cells().contains(cell)
    }
}

/// A non-self membership resolution carries a witness for its payload
/// subject, but that witness is no edge of the subject's role lineage.
pub open spec fn payload_local(body: BodyView, author: DeviceId, subject: DeviceId) -> bool {
    match body {
        BodyView::Resolution { cell: ExclusiveCell::Membership { subject: s }, .. } => s == subject
            && s != author,
        _ => false,
    }
}

/// The identifiers that the uses name as predecessors.
pub open spec fn cited(uses: Seq<UseView>) -> Set<FactId> {
    Set::new(
        |id: FactId|
            exists|i: int|
                0 <= i < uses.len() && (#[trigger] uses[i]).predecessors.contains(id),
    )
}

/// The facts by identifier.
pub type Facts = Map<FactId, FactView>;

/// Return the complete canonical dependency set for one fact.  Every caller
/// that decides whether a fact is ready must use this function: parents,
/// durable evidence, attestation inputs, and explicitly cited resolution
/// heads are all causal inputs, regardless of their arrival order.
pub fn dependencies(fact: &SignedFact) -> (r: Vec<FactId>)
    ensures
        r@ == fact@.dependencies(),
        order::is_ascending(r@),
        r@.no_duplicates(),
        r@.to_set() == fact@.inputs(),
        forall|id: FactId| #[trigger] r@.contains(id) <==> fact@.inputs().contains(id),
{
    let mut all: Vec<FactId> = copy_keys(&fact.content.parents);
    let uses = &fact.content.authority_uses;
    let n: usize = uses.len();
    let ghost views = fact@.content.authority_uses;
    let ghost parents = fact@.content.parents.to_set();
    proof {
        assert(cited(views.take(0)) =~= Set::empty());
        assert(all@.to_set() =~= parents.union(cited(views.take(0))));
    }
    for i in 0..n
        invariant
            n == uses@.len(),
            uses == &fact.content.authority_uses,
            views == uses_view(uses@),
            all@.to_set() == parents.union(cited(views.take(i as int))),
    {
        let ghost before = all@;
        append_keys(&mut all, &uses[i].predecessors);
        proof {
            let p = uses@[i as int].predecessors@;
            content::lemma_concat_set(before, p);
            lemma_cited_step(views, i as int);
            assert(all@.to_set() =~= parents.union(cited(views.take(i + 1))));
        }
    }
    proof {
        assert(views.take(n as int) =~= views);
    }
    fact.content.body.list_support(&mut all);
    assert(all@.to_set() =~= fact@.inputs());
    let r = sort_unique(&all);
    assert forall|id: FactId| #[trigger] r@.contains(id) <==> fact@.inputs().contains(id) by {
        assert(r@.to_set().contains(id) <==> r@.contains(id));
    }
    r
}

proof fn lemma_cited_step(uses: Seq<UseView>, i: int)
    requires
        0 <= i < uses.len(),
    ensures
        cited(uses.take(i + 1)) == cited(uses.take(i)).union(uses[i].predecessors.to_set()),
{
    let a = uses.take(i);
    let b = uses.take(i + 1);
    assert forall|id: FactId| #[trigger] cited(b).contains(id) <==> cited(a).union(
        uses[i].predecessors.to_set(),
    ).contains(id) by {
        if cited(b).contains(id) {
            let j = choose|j: int|
                0 <= j < b.len() && (#[trigger] b[j]).predecessors.contains(id);
            if j < i {
                assert(a[j].predecessors.contains(id));
            }
        }
        if cited(a).contains(id) {
            let j = choose|j: int|
                0 <= j < a.len() && (#[trigger] a[j]).predecessors.contains(id);
            assert(b[j].predecessors.contains(id));
        }
        if uses[i].predecessors.contains(id) {
            assert(b[i].predecessors.contains(id));
        }
    }
    assert(cited(b) =~= cited(a).union(uses[i].predecessors.to_set()));
}

proof fn lemma_cited_finite(uses: Seq<UseView>, n: int)
    requires
        0 <= n <= uses.len(),
    ensures
        cited(uses.take(n)).finite(),
    decreases n,
{
    if n == 0 {
        assert(cited(uses.take(0)) =~= Set::empty());
    } else {
        lemma_cited_finite(uses, n - 1);
        lemma_cited_step(uses, n - 1);
        vstd::seq_lib::seq_to_set_is_finite(uses[n - 1].predecessors);
    }
}

/// A fact has finitely many direct inputs.
pub proof fn lemma_inputs_finite(f: FactView)
    ensures
        f.inputs().finite(),
{
    let uses = f.content.authority_uses;
    lemma_cited_finite(uses, uses.len() as int);
    assert(uses.take(uses.len() as int) =~= uses);
    vstd::seq_lib::seq_to_set_is_finite(f.content.parents);
    match f.content.body {
        BodyView::Attestation { contributions, .. } => {
            vstd::seq_lib::seq_to_set_is_finite(contributions);
        },
        _ => match f.content.body.listed() {
            Some(list) => {
                vstd::seq_lib::seq_to_set_is_finite(list);
            },
            None => {},
        },
    }
}

/// Whether two lists of uses say the same.
fn same_uses(a: &Vec<AuthorityUse>, b: &Vec<AuthorityUse>) -> (r: bool)
    ensures
        r <==> uses_view(a@) == uses_view(b@),
{
    let ghost va = uses_view(a@);
    let ghost vb = uses_view(b@);
    assert(va.len() == a@.len() && vb.len() == b@.len());
    if a.len() != b.len() {
        return false;
    }
    let n: usize = a.len();
    for i in 0..n
        invariant
            n == a@.len(),
            n == b@.len(),
            va == uses_view(a@),
            vb == uses_view(b@),
            forall|j: int| 0 <= j < i ==> va[j] == vb[j],
    {
        assert(va[i as int] == a@[i as int]@ && vb[i as int] == b@[i as int]@);
        if !a[i].subject.same(&b[i].subject) || !same_keys(
            &a[i].predecessors,
            &b[i].predecessors,
        ) {
            return false;
        }
    }
    assert(va =~= vb);
    true
}

impl FactBody {
    /// Whether two bodies say the same.
    pub fn same(&self, other: &FactBody) -> (r: bool)
        ensures
            r <==> self@ == other@,
    {
        match (self, other) {
            (
                FactBody::RoleGrant { target: a, role: r },
                FactBody::RoleGrant { target: b, role: s },
            ) => a.same(b) && *r == *s,
            (FactBody::RoleRevoke { target: a }, FactBody::RoleRevoke { target: b }) => a.same(b),
            (FactBody::Evict { target: a }, FactBody::Evict { target: b }) => a.same(b),
            (
                FactBody::MembershipAdmit { target: a },
                FactBody::MembershipAdmit { target: b },
            ) => a.same(b),
            (
                FactBody::EvictionProof { target: a, evidence: l },
                FactBody::EvictionProof { target: b, evidence: m },
            ) => a.same(b) && same_keys(l, m),
            (
                FactBody::SelfStandDown { device_id: a, evidence: l },
                FactBody::SelfStandDown { device_id: b, evidence: m },
            ) => a.same(b) && same_keys(l, m),
            (
                FactBody::Attestation {
                    target: a,
                    proposal: p,
                    decision: d,
                    signer: s,
                    contributions: l,
                },
                FactBody::Attestation {
                    target: b,
                    proposal: q,
                    decision: e,
                    signer: t,
                    contributions: m,
                },
            ) => a.same(b) && p.same(q) && *d == *e && s.same(t) && same_keys(l, m),
            (
                FactBody::Resolution { cell: a, cited_heads: l, selected_head: p },
                FactBody::Resolution { cell: b, cited_heads: m, selected_head: q },
            ) => a.same(b) && same_keys(l, m) && p.same(q),
            (
                FactBody::AuthorityLineageResolution {
                    subject: a,
                    cited_heads: l,
                    selected_head: p,
                },
                FactBody::AuthorityLineageResolution {
                    subject: b,
                    cited_heads: m,
                    selected_head: q,
                },
            ) => a.same(b) && same_keys(l, m) && p.same(q),
            _ => false,
        }
    }
}

impl SignedFact {
    /// Whether the signature and the canonical form of the fact hold.
    pub fn verify(&self) -> (r: Result<(), SemanticError>)
        ensures
            match self@.checked.refusal {
                Some(e) => r == Err::<(), SemanticError>(e),
                None => r == Ok::<(), SemanticError>(()),
            },
    {
        match self.checked.refusal {
            Some(e) => Err(e),
            None => Ok(()),
        }
    }

    /// Whether two facts agree in identifier, content and signature.
    pub fn same(&self, other: &SignedFact) -> (r: bool)
        ensures
            r <==> self@.same_as(other@),
    {
        let a = &self.content;
        let b = &other.content;
        self.id.same(&other.id) && a.mesh_context.same(&b.mesh_context) && a.body.same(&b.body)
            && a.author.same(&b.author) && same_keys(&a.parents, &b.parents) && same_uses(
            &a.authority_uses,
            &b.authority_uses,
        ) && self.signature == other.signature
    }

    /// The place of the first lineage for `subject`.
    pub fn find_use(&self, subject: &DeviceId) -> (r: Option<usize>)
        ensures
            match r {
                Some(i) => self@.uses(*subject) && i < self.content.authority_uses@.len()
                    && i == self@.use_at(*subject)
                    && self@.content.authority_uses[i as int].subject == *subject
                    && self@.predecessors(*subject) == Some(
                    self.content.authority_uses@[i as int].predecessors@,
                ),
                None => !self@.uses(*subject),
            },
    {
        let uses = &self.content.authority_uses;
        let n: usize = uses.len();
        let ghost views = self@.content.authority_uses;
        let ghost names = views.map_values(|u: UseView| u.subject);
        for i in 0..n
            invariant
                n == uses@.len(),
                uses == &self.content.authority_uses,
                views == uses_view(uses@),
                views == self@.content.authority_uses,
                names == views.map_values(|u: UseView| u.subject),
                forall|j: int| 0 <= j < i ==> views[j].subject != *subject,
        {
            assert(views[i as int] == uses@[i as int]@);
            if uses[i].subject.same(subject) {
                proof {
                    assert(names[i as int] == *subject);
                    assert(names.index_of_first(*subject) is Some) by {
                        names.index_of_first_ensures(*subject);
                        assert(names.contains(*subject));
                    }
                    names.index_of_first_ensures(*subject);
                    let k = names.index_of_first(*subject)->0;
                    assert(k == i) by {
                        if k < i {
                            assert(names[k] == views[k].subject);
                        }
                    }
                }
                return Some(i);
            }
        }
        None
    }

    /// Whether the lineage for `subject` is a witness for the payload alone.
    pub fn is_payload_local(&self, subject: &DeviceId) -> (r: bool)
        ensures
            r == self@.payload_local(*subject),
    {
        is_payload_local_resolution(&self.content.body, &self.content.author, subject)
    }

    /// The subjects whose authority lineage the fact takes part in, in order.
    pub fn indexed_authority_subjects(&self) -> (r: Vec<DeviceId>)
        ensures
            r@ == order::ascending(self@.participants()),
            order::is_ascending(r@),
            r@.no_duplicates(),
            r@.to_set() == self@.participants(),
            self@.participants().finite(),
            forall|s: DeviceId| #[trigger] r@.contains(s) <==> self@.takes_part(s),
    {
        let uses = &self.content.authority_uses;
        let n: usize = uses.len();
        let mut set: OrdSet<DeviceId> = OrdSet::new();
        let ghost views = self@.content.authority_uses;
        for i in 0..n
            invariant
                n == uses@.len(),
                uses == &self.content.authority_uses,
                views == uses_view(uses@),
                views == self@.content.authority_uses,
                forall|s: DeviceId| #[trigger]
                    set@.contains(s) ==> self@.takes_part(s),
                forall|j: int|
                    0 <= j < i && !self@.payload_local(views[j].subject) ==> set@.contains(
                        #[trigger] views[j].subject,
                    ),
        {
            let subject = uses[i].subject;
            assert(views[i as int] == uses@[i as int]@);
            if !self.is_payload_local(&subject) {
                assert(self@.uses(subject)) by {
                    assert(views[i as int].subject == subject);
                }
                set.insert(subject);
            }
        }
        let r = set.to_vec();
        proof {
            assert forall|s: DeviceId| #[trigger] set@.contains(s) <==> self@.participants().contains(
                s,
            ) by {
                if self@.takes_part(s) {
                    let j = choose|j: int|
                        0 <= j < self@.content.authority_uses.len()
                            && #[trigger] self@.content.authority_uses[j].subject == s;
                    assert(set@.contains(views[j].subject));
                }
            }
            assert(set@ =~= self@.participants());
        }
        r
    }
}

/// A non-self Membership resolution may need to carry an AuthorityUse
/// witness for its payload subject, but that witness is not a persistent
/// Role-lineage edge. A self-authored Membership witness remains an author
/// edge. Otherwise a payload resolution could collapse an unrelated Role
/// fork into one apparent head and revive a losing branch.
pub fn is_payload_local_resolution(
    body: &FactBody,
    author: &DeviceId,
    subject: &DeviceId,
) -> (r: bool)
    ensures
        r == payload_local(body@, *author, *subject),
{
    match body {
        FactBody::Resolution { cell: ExclusiveCell::Membership { subject: s }, .. } => s.same(
            subject,
        ) && !s.same(author),
        _ => false,
    }
}

} // verus!
