//! Length-delimited canonical encoding.
//!
//! Length prefixes prevent field concatenation ambiguity: two bodies with one
//! encoding are one body.

use vstd::prelude::*;

use crate::content::{
    AttestationDecision, AuthorityUse, BodyView, ExclusiveCell, FactBody, Role, UseView,
};
use crate::device::DeviceId;
use crate::ids::{FactId, MeshContextId};

verus! {

/// The eight bytes of a number, the most significant first.
pub open spec fn be64(n: u64) -> Seq<u8> {
    seq![
        (n >> 56) as u8,
        (n >> 48) as u8,
        (n >> 40) as u8,
        (n >> 32) as u8,
        (n >> 24) as u8,
        (n >> 16) as u8,
        (n >> 8) as u8,
        n as u8,
    ]
}

/// A byte string behind its length.
pub open spec fn delimited(bytes: Seq<u8>) -> Seq<u8> {
    be64(bytes.len() as u64) + bytes
}

/// A text behind the length of its bytes.
pub open spec fn text_code(text: Seq<char>) -> Seq<u8> {
    delimited(vstd::utf8::encode_utf8(text))
}

/// The digests of a list of identifiers, one after the other.
pub open spec fn digests(ids: Seq<FactId>) -> Seq<u8>
    decreases ids.len(),
{
    if ids.len() == 0 {
        Seq::empty()
    } else {
        digests(ids.drop_last()) + ids.last().digest()
    }
}

/// A list of identifiers behind its length.
pub open spec fn ids_code(ids: Seq<FactId>) -> Seq<u8> {
    be64(ids.len() as u64) + digests(ids)
}

/// Authority uses, one after the other.
pub open spec fn uses_tail(uses: Seq<UseView>) -> Seq<u8>
    decreases uses.len(),
{
    if uses.len() == 0 {
        Seq::empty()
    } else {
        uses_tail(uses.drop_last()) + uses.last().subject.key() + ids_code(uses.last().predecessors)
    }
}

/// A list of authority uses behind its length.
pub open spec fn uses_code(uses: Seq<UseView>) -> Seq<u8> {
    be64(uses.len() as u64) + uses_tail(uses)
}

impl Role {
    pub open spec fn spec_tag(self) -> Seq<char> {
        match self {
            Role::Member => "member"@,
            Role::Controller => "controller"@,
            Role::Owner => "owner"@,
        }
    }

    /// The wire tag of a role.
    pub fn tag(self) -> (r: &'static str)
        ensures
            r@ == self.spec_tag(),
    {
        match self {
            Role::Member => "member",
            Role::Controller => "controller",
            Role::Owner => "owner",
        }
    }
}

impl AttestationDecision {
    pub open spec fn spec_tag(self) -> Seq<char> {
        match self {
            AttestationDecision::Evict => "evict"@,
            AttestationDecision::Approve => "approve"@,
            AttestationDecision::Reject => "reject"@,
        }
    }

    /// The wire tag of a decision.
    pub fn tag(self) -> (r: &'static str)
        ensures
            r@ == self.spec_tag(),
    {
        match self {
            AttestationDecision::Evict => "evict",
            AttestationDecision::Approve => "approve",
            AttestationDecision::Reject => "reject",
        }
    }
}

/// The encoding of a cell.
pub open spec fn cell_code(cell: ExclusiveCell) -> Seq<u8> {
    match cell {
        ExclusiveCell::Role { subject } => text_code("role"@) + subject.key(),
        ExclusiveCell::Membership { subject } => text_code("membership"@) + subject.key(),
        ExclusiveCell::Decision { proposal } => text_code("decision"@) + proposal.digest(),
    }
}

/// The tag that opens the encoding of a body.
pub open spec fn body_tag(body: BodyView) -> Seq<char> {
    match body {
        BodyView::RoleGrant { .. } => "role_grant"@,
        BodyView::RoleRevoke { .. } => "role_revoke"@,
        BodyView::Evict { .. } => "evict"@,
        BodyView::MembershipAdmit { .. } => "membership_admit"@,
        BodyView::EvictionProof { .. } => "eviction_proof"@,
        BodyView::SelfStandDown { .. } => "self_stand_down"@,
        BodyView::Attestation { .. } => "attestation"@,
        BodyView::Resolution { .. } => "resolution"@,
        BodyView::AuthorityLineageResolution { .. } => "authority_lineage_resolution"@,
    }
}

/// What follows the tag in the encoding of a body.
pub open spec fn body_fields(body: BodyView) -> Seq<u8> {
    match body {
        BodyView::RoleGrant { target, role } => target.key() + text_code(role.spec_tag()),
        BodyView::RoleRevoke { target } => target.key(),
        BodyView::Evict { target } => target.key(),
        BodyView::MembershipAdmit { target } => target.key(),
        BodyView::EvictionProof { target, evidence } => target.key() + ids_code(evidence),
        BodyView::SelfStandDown { device_id, evidence } => device_id.key() + ids_code(evidence),
        BodyView::Attestation { target, proposal, decision, signer, contributions } =>
        target.key() + proposal.digest() + text_code(decision.spec_tag()) + signer.key()
            + ids_code(contributions),
        BodyView::Resolution { cell, cited_heads, selected_head } => cell_code(cell)
            + ids_code(cited_heads) + selected_head.digest(),
        BodyView::AuthorityLineageResolution { subject, cited_heads, selected_head } =>
        subject.key() + ids_code(cited_heads) + selected_head.digest(),
    }
}

/// The encoding of a body.
pub open spec fn body_code(body: BodyView) -> Seq<u8> {
    text_code(body_tag(body)) + body_fields(body)
}

/// Small length-delimited canonical encoder.
pub struct Encoder {
    bytes: Vec<u8>,
}

impl View for Encoder {
    type V = Seq<u8>;

    closed spec fn view(&self) -> Seq<u8> {
        self.bytes@
    }
}

impl Encoder {
    pub fn new() -> (r: Self)
        ensures
            r@ == Seq::<u8>::empty(),
    {
        Encoder { bytes: Vec::new() }
    }

    fn raw(&mut self, value: &[u8])
        ensures
            final(self)@ == old(self)@ + value@,
    {
        self.bytes.extend_from_slice(value);
    }

    /// Appends a count.
    fn count(&mut self, n: usize)
        ensures
            final(self)@ == old(self)@ + be64(n as u64),
    {
        let ghost start = self@;
        let n: u64 = n as u64;
        self.bytes.push((n >> 56) as u8);
        self.bytes.push((n >> 48) as u8);
        self.bytes.push((n >> 40) as u8);
        self.bytes.push((n >> 32) as u8);
        self.bytes.push((n >> 24) as u8);
        self.bytes.push((n >> 16) as u8);
        self.bytes.push((n >> 8) as u8);
        self.bytes.push(n as u8);
        assert(self@ =~= start + be64(n));
    }

    pub fn tag(&mut self, value: &str)
        ensures
            final(self)@ == old(self)@ + text_code(value@),
    {
        self.text(value);
    }

    pub fn bytes(&mut self, value: &[u8])
        ensures
            final(self)@ == old(self)@ + delimited(value@),
    {
        let ghost start = self@;
        self.count(value.len());
        self.raw(value);
        assert(self@ =~= start + delimited(value@));
    }

    pub fn text(&mut self, value: &str)
        ensures
            final(self)@ == old(self)@ + text_code(value@),
    {
        let bytes = value.as_bytes();
        self.bytes(bytes);
    }

    pub fn id(&mut self, value: FactId)
        ensures
            final(self)@ == old(self)@ + value.digest(),
    {
        self.raw(value.as_bytes().as_slice());
    }

    pub fn device(&mut self, value: &DeviceId)
        ensures
            final(self)@ == old(self)@ + value.key(),
    {
        let key = value.as_bytes();
        self.raw(key.as_slice());
    }

    pub fn context(&mut self, value: MeshContextId)
        ensures
            final(self)@ == old(self)@ + value.digest(),
    {
        self.raw(value.as_bytes().as_slice());
    }

    pub fn list_ids(&mut self, values: &Vec<FactId>)
        ensures
            final(self)@ == old(self)@ + ids_code(values@),
    {
        let ghost start = self@;
        let n: usize = values.len();
        self.count(n);
        let ghost base = self@;
        assert(base =~= base + digests(values@.take(0)));
        for i in 0..n
            invariant
                n == values@.len(),
                self@ == base + digests(values@.take(i as int)),
        {
            self.id(values[i]);
            proof {
                let longer = values@.take(i + 1);
                assert(longer.drop_last() =~= values@.take(i as int));
                assert(self@ =~= base + digests(longer));
            }
        }
        proof {
            assert(values@.take(n as int) =~= values@);
            assert(self@ =~= start + ids_code(values@));
        }
    }

    pub fn list_authority_uses(&mut self, values: &Vec<AuthorityUse>)
        ensures
            final(self)@ == old(self)@ + uses_code(values@.map_values(|u: AuthorityUse| u@)),
    {
        let ghost start = self@;
        let ghost uses = values@.map_values(|u: AuthorityUse| u@);
        let n: usize = values.len();
        self.count(n);
        let ghost base = self@;
        assert(base =~= base + uses_tail(uses.take(0)));
        for i in 0..n
            invariant
                n == values@.len(),
                uses == values@.map_values(|u: AuthorityUse| u@),
                self@ == base + uses_tail(uses.take(i as int)),
        {
            let value = &values[i];
            self.device(&value.subject);
            self.list_ids(&value.predecessors);
            proof {
                let longer = uses.take(i + 1);
                assert(longer.drop_last() =~= uses.take(i as int));
                assert(longer.last() == value@);
                assert(self@ =~= base + uses_tail(longer));
            }
        }
        proof {
            assert(uses.take(n as int) =~= uses);
            assert(self@ =~= start + uses_code(uses));
        }
    }

    pub fn finish(self) -> (r: Vec<u8>)
        ensures
            r@ == self@,
    {
        self.bytes
    }
}

impl ExclusiveCell {
    pub fn encode(&self, out: &mut Encoder)
        ensures
            final(out)@ == old(out)@ + cell_code(*self),
    {
        match self {
            ExclusiveCell::Role { subject } => {
                out.tag("role");
                out.device(subject);
            },
            ExclusiveCell::Membership { subject } => {
                out.tag("membership");
                out.device(subject);
            },
            ExclusiveCell::Decision { proposal } => {
                out.tag("decision");
                out.id(*proposal);
            },
        }
        assert(out@ =~= old(out)@ + cell_code(*self));
    }
}

impl FactBody {
    pub fn encode(&self, out: &mut Encoder)
        ensures
            final(out)@ == old(out)@ + body_code(self@),
    {
        let ghost start = out@;
        match self {
            FactBody::RoleGrant { target, role } => {
                out.tag("role_grant");
                out.device(target);
                out.tag(role.tag());
            },
            FactBody::RoleRevoke { target } => {
                out.tag("role_revoke");
                out.device(target);
            },
            FactBody::Evict { target } => {
                out.tag("evict");
                out.device(target);
            },
            FactBody::MembershipAdmit { target } => {
                out.tag("membership_admit");
                out.device(target);
            },
            FactBody::EvictionProof { target, evidence } => {
                out.tag("eviction_proof");
                out.device(target);
                out.list_ids(evidence);
            },
            FactBody::SelfStandDown { device_id, evidence } => {
                out.tag("self_stand_down");
                out.device(device_id);
                out.list_ids(evidence);
            },
            FactBody::Attestation { target, proposal, decision, signer, contributions } => {
                out.tag("attestation");
                out.device(target);
                out.id(*proposal);
                out.tag(decision.tag());
                out.device(signer);
                out.list_ids(contributions);
            },
            FactBody::Resolution { cell, cited_heads, selected_head } => {
                out.tag("resolution");
                cell.encode(out);
                out.list_ids(cited_heads);
                out.id(*selected_head);
            },
            FactBody::AuthorityLineageResolution { subject, cited_heads, selected_head } => {
                out.tag("authority_lineage_resolution");
                out.device(subject);
                out.list_ids(cited_heads);
                out.id(*selected_head);
            },
        }
        assert(out@ =~= start + body_code(self@));
    }
}

proof fn lemma_be64_injective(a: u64, b: u64)
    requires
        be64(a) == be64(b),
    ensures
        a == b,
{
    assert(be64(a)[0] == be64(b)[0] && be64(a)[1] == be64(b)[1] && be64(a)[2] == be64(b)[2]
        && be64(a)[3] == be64(b)[3] && be64(a)[4] == be64(b)[4] && be64(a)[5] == be64(b)[5]
        && be64(a)[6] == be64(b)[6] && be64(a)[7] == be64(b)[7]);
    assert(a == b) by (bit_vector)
        requires
            (a >> 56) as u8 == (b >> 56) as u8,
            (a >> 48) as u8 == (b >> 48) as u8,
            (a >> 40) as u8 == (b >> 40) as u8,
            (a >> 32) as u8 == (b >> 32) as u8,
            (a >> 24) as u8 == (b >> 24) as u8,
            (a >> 16) as u8 == (b >> 16) as u8,
            (a >> 8) as u8 == (b >> 8) as u8,
            a as u8 == b as u8,
    ;
}

/// Two splits of one byte string at one place are one split.
proof fn lemma_split(a: Seq<u8>, x: Seq<u8>, b: Seq<u8>, y: Seq<u8>)
    requires
        a + x == b + y,
        a.len() == b.len(),
    ensures
        a == b,
        x == y,
{
    assert(a =~= (a + x).take(a.len() as int));
    assert(b =~= (b + y).take(a.len() as int));
    assert(x =~= (a + x).skip(a.len() as int));
    assert(y =~= (b + y).skip(a.len() as int));
}

proof fn lemma_delimited_split(a: Seq<u8>, x: Seq<u8>, b: Seq<u8>, y: Seq<u8>)
    requires
        delimited(a) + x == delimited(b) + y,
        a.len() <= u64::MAX,
        b.len() <= u64::MAX,
    ensures
        a == b,
        x == y,
{
    let m = be64(a.len() as u64);
    let n = be64(b.len() as u64);
    assert(delimited(a) + x =~= m + (a + x));
    assert(delimited(b) + y =~= n + (b + y));
    lemma_split(m, a + x, n, b + y);
    lemma_be64_injective(a.len() as u64, b.len() as u64);
    lemma_split(a, x, b, y);
}

proof fn lemma_text_split(a: Seq<char>, x: Seq<u8>, b: Seq<char>, y: Seq<u8>)
    requires
        text_code(a) + x == text_code(b) + y,
        vstd::utf8::encode_utf8(a).len() <= u64::MAX,
        vstd::utf8::encode_utf8(b).len() <= u64::MAX,
    ensures
        a == b,
        x == y,
{
    lemma_delimited_split(vstd::utf8::encode_utf8(a), x, vstd::utf8::encode_utf8(b), y);
    vstd::utf8::encode_utf8_decode_utf8(a);
    vstd::utf8::encode_utf8_decode_utf8(b);
}

proof fn lemma_digests_len(ids: Seq<FactId>)
    ensures
        digests(ids).len() == 32 * ids.len(),
    decreases ids.len(),
{
    if ids.len() > 0 {
        lemma_digests_len(ids.drop_last());
        FactId::lemma_digest(ids.last(), ids.last());
    }
}

proof fn lemma_digests_injective(a: Seq<FactId>, b: Seq<FactId>)
    requires
        a.len() == b.len(),
        digests(a) == digests(b),
    ensures
        a == b,
    decreases a.len(),
{
    if a.len() > 0 {
        lemma_digests_len(a.drop_last());
        lemma_digests_len(b.drop_last());
        lemma_split(
            digests(a.drop_last()),
            a.last().digest(),
            digests(b.drop_last()),
            b.last().digest(),
        );
        lemma_digests_injective(a.drop_last(), b.drop_last());
        FactId::lemma_digest(a.last(), b.last());
        assert(a =~= a.drop_last().push(a.last()));
        assert(b =~= b.drop_last().push(b.last()));
    } else {
        assert(a =~= b);
    }
}

proof fn lemma_ids_split(a: Seq<FactId>, x: Seq<u8>, b: Seq<FactId>, y: Seq<u8>)
    requires
        ids_code(a) + x == ids_code(b) + y,
        a.len() <= u64::MAX,
        b.len() <= u64::MAX,
    ensures
        a == b,
        x == y,
{
    let m = be64(a.len() as u64);
    let n = be64(b.len() as u64);
    assert(ids_code(a) + x =~= m + (digests(a) + x));
    assert(ids_code(b) + y =~= n + (digests(b) + y));
    lemma_split(m, digests(a) + x, n, digests(b) + y);
    lemma_be64_injective(a.len() as u64, b.len() as u64);
    lemma_digests_len(a);
    lemma_digests_len(b);
    lemma_split(digests(a), x, digests(b), y);
    lemma_digests_injective(a, b);
}

proof fn lemma_id_split(a: FactId, x: Seq<u8>, b: FactId, y: Seq<u8>)
    requires
        a.digest() + x == b.digest() + y,
    ensures
        a == b,
        x == y,
{
    FactId::lemma_digest(a, b);
    FactId::lemma_digest(b, a);
    lemma_split(a.digest(), x, b.digest(), y);
}

proof fn lemma_device_split(a: DeviceId, x: Seq<u8>, b: DeviceId, y: Seq<u8>)
    requires
        a.key() + x == b.key() + y,
        a.is_identity(),
        b.is_identity(),
    ensures
        a == b,
        x == y,
{
    DeviceId::lemma_parts(a, b);
    DeviceId::lemma_parts(b, a);
    lemma_split(a.key(), x, b.key(), y);
}

proof fn lemma_tags()
    ensures
        forall|a: Role, b: Role| #[trigger] a.spec_tag() == #[trigger] b.spec_tag() ==> a == b,
        forall|a: AttestationDecision, b: AttestationDecision| #[trigger]
            a.spec_tag() == #[trigger] b.spec_tag() ==> a == b,
        "role"@ != "membership"@,
        "role"@ != "decision"@,
        "membership"@ != "decision"@,
{
    reveal_strlit("member");
    reveal_strlit("controller");
    reveal_strlit("owner");
    reveal_strlit("evict");
    reveal_strlit("approve");
    reveal_strlit("reject");
    reveal_strlit("role");
    reveal_strlit("membership");
    reveal_strlit("decision");
    assert("member"@.len() == 6 && "controller"@.len() == 10 && "owner"@.len() == 5);
    assert("evict"@.len() == 5 && "approve"@.len() == 7 && "reject"@.len() == 6);
    assert("role"@.len() == 4 && "membership"@.len() == 10 && "decision"@.len() == 8);
}

/// A short text has a short encoding.
proof fn lemma_short(text: Seq<char>)
    ensures
        vstd::utf8::encode_utf8(text).len() <= 4 * text.len(),
    decreases text.len(),
{
    if text.len() > 0 {
        lemma_short(text.drop_first());
    }
}

proof fn lemma_cell_split(a: ExclusiveCell, x: Seq<u8>, b: ExclusiveCell, y: Seq<u8>)
    requires
        cell_code(a) + x == cell_code(b) + y,
        cell_valid(a),
        cell_valid(b),
    ensures
        a == b,
        x == y,
{
    lemma_tags();
    reveal_strlit("role");
    reveal_strlit("membership");
    reveal_strlit("decision");
    lemma_short("role"@);
    lemma_short("membership"@);
    lemma_short("decision"@);
    let ta = cell_tag(a);
    let tb = cell_tag(b);
    assert(cell_code(a) + x =~= text_code(ta) + (cell_field(a) + x));
    assert(cell_code(b) + y =~= text_code(tb) + (cell_field(b) + y));
    lemma_text_split(ta, cell_field(a) + x, tb, cell_field(b) + y);
    match (a, b) {
        (ExclusiveCell::Role { subject: p }, ExclusiveCell::Role { subject: q }) => {
            lemma_device_split(p, x, q, y);
        },
        (ExclusiveCell::Membership { subject: p }, ExclusiveCell::Membership { subject: q }) => {
            lemma_device_split(p, x, q, y);
        },
        (ExclusiveCell::Decision { proposal: p }, ExclusiveCell::Decision { proposal: q }) => {
            lemma_id_split(p, x, q, y);
        },
        _ => {},
    }
}

spec fn cell_tag(cell: ExclusiveCell) -> Seq<char> {
    match cell {
        ExclusiveCell::Role { .. } => "role"@,
        ExclusiveCell::Membership { .. } => "membership"@,
        ExclusiveCell::Decision { .. } => "decision"@,
    }
}

spec fn cell_field(cell: ExclusiveCell) -> Seq<u8> {
    match cell {
        ExclusiveCell::Role { subject } => subject.key(),
        ExclusiveCell::Membership { subject } => subject.key(),
        ExclusiveCell::Decision { proposal } => proposal.digest(),
    }
}

/// The device of a cell is an identity.
pub open spec fn cell_valid(cell: ExclusiveCell) -> bool {
    match cell.about() {
        Some(subject) => subject.is_identity(),
        None => true,
    }
}

/// The devices of a body are identities, and its list fits in memory.
pub open spec fn body_valid(body: BodyView) -> bool {
    &&& match body.listed() {
        Some(list) => list.len() <= usize::MAX,
        None => true,
    }
    &&& match body {
        BodyView::Attestation { target, signer, .. } => target.is_identity()
            && signer.is_identity(),
        _ => match body.payload_subject() {
            Some(subject) => subject.is_identity(),
            None => true,
        },
    }
}

proof fn lemma_body_tags(a: BodyView, b: BodyView)
    ensures
        vstd::utf8::encode_utf8(body_tag(a)).len() <= 200,
        body_tag(a) == body_tag(b) ==> body_kind(a) == body_kind(b),
{
    reveal_strlit("role_grant");
    reveal_strlit("role_revoke");
    reveal_strlit("evict");
    reveal_strlit("membership_admit");
    reveal_strlit("eviction_proof");
    reveal_strlit("self_stand_down");
    reveal_strlit("attestation");
    reveal_strlit("resolution");
    reveal_strlit("authority_lineage_resolution");
    assert("role_grant"@[1] == 'o' && "resolution"@[1] == 'e');
    assert("role_revoke"@[0] == 'r' && "attestation"@[0] == 'a');
    assert("role_grant"@.len() == 10 && "role_revoke"@.len() == 11 && "evict"@.len() == 5);
    assert("membership_admit"@.len() == 16 && "eviction_proof"@.len() == 14);
    assert("self_stand_down"@.len() == 15 && "attestation"@.len() == 11);
    assert("resolution"@.len() == 10 && "authority_lineage_resolution"@.len() == 28);
    lemma_short(body_tag(a));
}

/// The place of a body's kind among the kinds.
spec fn body_kind(body: BodyView) -> int {
    match body {
        BodyView::RoleGrant { .. } => 0,
        BodyView::RoleRevoke { .. } => 1,
        BodyView::Evict { .. } => 2,
        BodyView::MembershipAdmit { .. } => 3,
        BodyView::EvictionProof { .. } => 4,
        BodyView::SelfStandDown { .. } => 5,
        BodyView::Attestation { .. } => 6,
        BodyView::Resolution { .. } => 7,
        BodyView::AuthorityLineageResolution { .. } => 8,
    }
}

proof fn lemma_enum_tags_short(role: Role, decision: AttestationDecision)
    ensures
        vstd::utf8::encode_utf8(role.spec_tag()).len() <= 100,
        vstd::utf8::encode_utf8(decision.spec_tag()).len() <= 100,
{
    reveal_strlit("member");
    reveal_strlit("controller");
    reveal_strlit("owner");
    reveal_strlit("evict");
    reveal_strlit("approve");
    reveal_strlit("reject");
    lemma_short(role.spec_tag());
    lemma_short(decision.spec_tag());
}

/// A device behind which a list stands.
proof fn lemma_device_list_split(
    p: DeviceId,
    l: Seq<FactId>,
    x: Seq<u8>,
    q: DeviceId,
    m: Seq<FactId>,
    y: Seq<u8>,
)
    requires
        p.key() + ids_code(l) + x == q.key() + ids_code(m) + y,
        p.is_identity(),
        q.is_identity(),
        l.len() <= u64::MAX,
        m.len() <= u64::MAX,
    ensures
        p == q,
        l == m,
        x == y,
{
    assert(p.key() + ids_code(l) + x =~= p.key() + (ids_code(l) + x));
    assert(q.key() + ids_code(m) + y =~= q.key() + (ids_code(m) + y));
    lemma_device_split(p, ids_code(l) + x, q, ids_code(m) + y);
    lemma_ids_split(l, x, m, y);
}

proof fn lemma_grant_split(a: BodyView, x: Seq<u8>, b: BodyView, y: Seq<u8>)
    requires
        a is RoleGrant,
        b is RoleGrant,
        body_valid(a),
        body_valid(b),
        body_fields(a) + x == body_fields(b) + y,
    ensures
        a == b,
        x == y,
{
    if let (
        BodyView::RoleGrant { target: p, role: r },
        BodyView::RoleGrant { target: q, role: s },
    ) = (a, b) {
        let u = text_code(r.spec_tag());
        let v = text_code(s.spec_tag());
        assert(body_fields(a) + x =~= p.key() + (u + x));
        assert(body_fields(b) + y =~= q.key() + (v + y));
        lemma_device_split(p, u + x, q, v + y);
        lemma_enum_tags_short(r, AttestationDecision::Evict);
        lemma_enum_tags_short(s, AttestationDecision::Evict);
        lemma_text_split(r.spec_tag(), x, s.spec_tag(), y);
        lemma_tags();
    }
}

proof fn lemma_attestation_split(a: BodyView, x: Seq<u8>, b: BodyView, y: Seq<u8>)
    requires
        a is Attestation,
        b is Attestation,
        body_valid(a),
        body_valid(b),
        body_fields(a) + x == body_fields(b) + y,
    ensures
        a == b,
        x == y,
{
    if let (
        BodyView::Attestation { target: p, proposal: g, decision: r, signer: t, contributions: l },
        BodyView::Attestation { target: q, proposal: h, decision: s, signer: w, contributions: m },
    ) = (a, b) {
        let x3 = ids_code(l) + x;
        let y3 = ids_code(m) + y;
        let x2 = t.key() + x3;
        let y2 = w.key() + y3;
        let x1 = text_code(r.spec_tag()) + x2;
        let y1 = text_code(s.spec_tag()) + y2;
        assert(body_fields(a) + x =~= p.key() + (g.digest() + x1));
        assert(body_fields(b) + y =~= q.key() + (h.digest() + y1));
        lemma_device_split(p, g.digest() + x1, q, h.digest() + y1);
        lemma_id_split(g, x1, h, y1);
        lemma_enum_tags_short(Role::Member, r);
        lemma_enum_tags_short(Role::Member, s);
        lemma_text_split(r.spec_tag(), x2, s.spec_tag(), y2);
        lemma_tags();
        lemma_device_split(t, x3, w, y3);
        lemma_ids_split(l, x, m, y);
    }
}

proof fn lemma_resolution_split(a: BodyView, x: Seq<u8>, b: BodyView, y: Seq<u8>)
    requires
        (a is Resolution && b is Resolution) || (a is AuthorityLineageResolution
            && b is AuthorityLineageResolution),
        body_valid(a),
        body_valid(b),
        body_fields(a) + x == body_fields(b) + y,
    ensures
        a == b,
        x == y,
{
    match (a, b) {
        (
            BodyView::Resolution { cell: c, cited_heads: l, selected_head: g },
            BodyView::Resolution { cell: d, cited_heads: m, selected_head: h },
        ) => {
            let x2 = g.digest() + x;
            let y2 = h.digest() + y;
            assert(body_fields(a) + x =~= cell_code(c) + (ids_code(l) + x2));
            assert(body_fields(b) + y =~= cell_code(d) + (ids_code(m) + y2));
            lemma_cell_split(c, ids_code(l) + x2, d, ids_code(m) + y2);
            lemma_ids_split(l, x2, m, y2);
            lemma_id_split(g, x, h, y);
        },
        (
            BodyView::AuthorityLineageResolution { subject: p, cited_heads: l, selected_head: g },
            BodyView::AuthorityLineageResolution { subject: q, cited_heads: m, selected_head: h },
        ) => {
            let x2 = g.digest() + x;
            let y2 = h.digest() + y;
            assert(body_fields(a) + x =~= p.key() + ids_code(l) + x2);
            assert(body_fields(b) + y =~= q.key() + ids_code(m) + y2);
            lemma_device_list_split(p, l, x2, q, m, y2);
            lemma_id_split(g, x, h, y);
        },
        _ => {},
    }
}

/// The canonical encoding of a body determines the body: no two bodies share
/// an encoding, and none is confused with another followed by more bytes.
pub proof fn body_encoding_is_unambiguous(a: BodyView, x: Seq<u8>, b: BodyView, y: Seq<u8>)
    requires
        body_valid(a),
        body_valid(b),
        body_code(a) + x == body_code(b) + y,
    ensures
        a == b,
        x == y,
{
    lemma_body_tags(a, b);
    lemma_body_tags(b, a);
    assert(body_code(a) + x =~= text_code(body_tag(a)) + (body_fields(a) + x));
    assert(body_code(b) + y =~= text_code(body_tag(b)) + (body_fields(b) + y));
    lemma_text_split(body_tag(a), body_fields(a) + x, body_tag(b), body_fields(b) + y);
    match (a, b) {
        (BodyView::RoleGrant { .. }, BodyView::RoleGrant { .. }) => {
            lemma_grant_split(a, x, b, y);
        },
        (BodyView::RoleRevoke { target: p }, BodyView::RoleRevoke { target: q }) => {
            lemma_device_split(p, x, q, y);
        },
        (BodyView::Evict { target: p }, BodyView::Evict { target: q }) => {
            lemma_device_split(p, x, q, y);
        },
        (BodyView::MembershipAdmit { target: p }, BodyView::MembershipAdmit { target: q }) => {
            lemma_device_split(p, x, q, y);
        },
        (
            BodyView::EvictionProof { target: p, evidence: l },
            BodyView::EvictionProof { target: q, evidence: m },
        ) => {
            lemma_device_list_split(p, l, x, q, m, y);
        },
        (
            BodyView::SelfStandDown { device_id: p, evidence: l },
            BodyView::SelfStandDown { device_id: q, evidence: m },
        ) => {
            lemma_device_list_split(p, l, x, q, m, y);
        },
        (BodyView::Attestation { .. }, BodyView::Attestation { .. }) => {
            lemma_attestation_split(a, x, b, y);
        },
        _ => {
            lemma_resolution_split(a, x, b, y);
        },
    }
}

} // verus!
