use vstd::prelude::*;

use crate::outside::{is_uri_text, is_cid_text, uri_ok, cid_ok};
use crate::ability::{Ability, ability_lt, ability_text, ability_wf};
use crate::text::{chars_lt, str_lt, str_eq};
use crate::value::{SpecValue, Value, spec_fields_of, spec_value_wf, value_is_canonical};
use crate::codec::jcs_value;

verus! {

// ---------------------------------------------------------------------------
// Targets and proof references, held as validated text.
// ---------------------------------------------------------------------------

// The absolute URI a grant applies to.
#[derive(Debug, PartialEq, Eq)]
pub struct Target {
    text: String,
}

impl View for Target {
    type V = Seq<char>;

    closed spec fn view(&self) -> Seq<char> {
        self.text@
    }
}

impl Target {
    #[verifier::type_invariant]
    pub open spec fn inv(self) -> bool {
        is_uri_text(self@)
    }

    /// Accepts exactly the texts that satisfy the URI grammar.
    pub fn parse(s: &str) -> (r: Option<Target>)
        ensures
            r matches Some(t) ==> t@ == s@ && is_uri_text(s@),
            r is None ==> !is_uri_text(s@),
    {
        if uri_ok(s) {
            Some(Target { text: s.to_owned() })
        } else {
            None
        }
    }

    pub fn as_str(&self) -> (r: &str)
        ensures
            r@ == self@,
    {
        self.text.as_str()
    }
}

impl Clone for Target {
    fn clone(&self) -> (r: Self)
        ensures
            r == *self,
    {
        proof {
            use_type_invariant(&*self);
        }
        Target { text: self.text.clone() }
    }
}

// A content-addressed reference to a parent delegation, in its textual
// base58btc multibase form.
#[derive(Debug, PartialEq, Eq)]
pub struct ProofCid {
    text: String,
}

impl View for ProofCid {
    type V = Seq<char>;

    closed spec fn view(&self) -> Seq<char> {
        self.text@
    }
}

pub open spec fn proof_text_wf(s: Seq<char>) -> bool {
    s.len() > 0 && s[0] == 'z' && is_cid_text(s)
}

impl ProofCid {
    #[verifier::type_invariant]
    pub open spec fn inv(self) -> bool {
        proof_text_wf(self@)
    }

    /// Accepts exactly the base58btc-marked texts that parse as content
    /// identifiers.
    pub fn parse(s: &str) -> (r: Option<ProofCid>)
        ensures
            r matches Some(p) ==> p@ == s@ && proof_text_wf(s@),
            r is None ==> !proof_text_wf(s@),
    {
        let n = s.unicode_len();
        if n == 0 {
            return None;
        }
        if s.get_char(0) != 'z' {
            return None;
        }
        if cid_ok(s) {
            Some(ProofCid { text: s.to_owned() })
        } else {
            None
        }
    }

    pub fn as_str(&self) -> (r: &str)
        ensures
            r@ == self@,
    {
        self.text.as_str()
    }
}

impl Clone for ProofCid {
    fn clone(&self) -> (r: Self)
        ensures
            r == *self,
    {
        proof {
            use_type_invariant(&*self);
        }
        ProofCid { text: self.text.clone() }
    }
}

// ---------------------------------------------------------------------------
// Nota bene records: ordered constraint maps attached to one grant.
// ---------------------------------------------------------------------------

#[derive(Debug, PartialEq, Eq)]
pub struct NotaBene {
    fields: Vec<(String, Value)>,
}

impl View for NotaBene {
    type V = Seq<(Seq<char>, SpecValue)>;

    closed spec fn view(&self) -> Seq<(Seq<char>, SpecValue)> {
        spec_fields_of(self.fields@)
    }
}

// Insertion into a key-sorted record: earlier keys pass, an equal key is
// replaced, a missing key is placed before the first larger one.
pub open spec fn spec_obj_insert(
    fields: Seq<(Seq<char>, SpecValue)>,
    k: Seq<char>,
    v: SpecValue,
) -> Seq<(Seq<char>, SpecValue)>
    decreases fields.len(),
{
    if fields.len() == 0 {
        seq![(k, v)]
    } else if chars_lt(k, fields[0].0) {
        seq![(k, v)] + fields
    } else if k == fields[0].0 {
        seq![(k, v)] + fields.drop_first()
    } else {
        seq![fields[0]] + spec_obj_insert(fields.drop_first(), k, v)
    }
}

// The position found by a sorted scan determines the shape of the insertion.
proof fn lemma_obj_insert_at(fields: Seq<(Seq<char>, SpecValue)>, k: Seq<char>, v: SpecValue, j: int)
    requires
        0 <= j <= fields.len(),
        forall|q: int| 0 <= q < j ==> chars_lt((#[trigger] fields[q]).0, k),
        j < fields.len() ==> !chars_lt(fields[j as int].0, k),
    ensures
        j < fields.len() && fields[j as int].0 == k ==> spec_obj_insert(fields, k, v)
            == fields.update(j, (k, v)),
        !(j < fields.len() && fields[j as int].0 == k) ==> spec_obj_insert(fields, k, v)
            == fields.insert(j, (k, v)),
    decreases j,
{
    if j == 0 {
        if fields.len() == 0 {
            assert(spec_obj_insert(fields, k, v) =~= fields.insert(0, (k, v)));
        } else if fields[0].0 == k {
            assert(seq![(k, v)] + fields.drop_first() =~= fields.update(0, (k, v)));
            crate::text::lemma_chars_lt_irreflexive(k);
        } else if chars_lt(k, fields[0].0) {
            assert(seq![(k, v)] + fields =~= fields.insert(0, (k, v)));
        } else {
            crate::text::lemma_chars_lt_connected(k, fields[0].0);
            assert(false);
        }
    } else {
        assert(chars_lt(fields[0].0, k));
        crate::text::lemma_chars_lt_asymmetric(fields[0].0, k);
        assert(!chars_lt(k, fields[0].0));
        assert(k != fields[0].0) by {
            crate::text::lemma_chars_lt_irreflexive(k);
        }
        let rest = fields.drop_first();
        assert(forall|q: int| 0 <= q < j - 1 ==> #[trigger] rest[q] == fields[q + 1]);
        lemma_obj_insert_at(rest, k, v, j - 1);
        if j < fields.len() && fields[j as int].0 == k {
            assert(rest[j - 1] == fields[j as int]);
            assert(seq![fields[0]] + rest.update(j - 1, (k, v)) =~= fields.update(j, (k, v)));
        } else {
            assert(seq![fields[0]] + rest.insert(j - 1, (k, v)) =~= fields.insert(j, (k, v)));
        }
    }
}

// Inserting a well-formed value at the scanned position keeps the record
// canonical.
proof fn lemma_obj_insert_wf(fields: Seq<(Seq<char>, SpecValue)>, k: Seq<char>, v: SpecValue, j: int)
    requires
        spec_value_wf(SpecValue::Obj(fields)),
        spec_value_wf(v),
        0 <= j <= fields.len(),
        forall|q: int| 0 <= q < j ==> chars_lt((#[trigger] fields[q]).0, k),
        j < fields.len() ==> !chars_lt(fields[j as int].0, k),
    ensures
        spec_value_wf(SpecValue::Obj(spec_obj_insert(fields, k, v))),
{
    lemma_obj_insert_at(fields, k, v, j);
    assert forall|q: int| 0 <= q < fields.len() implies spec_value_wf(
        (#[trigger] fields[q]).1,
    ) by {
        crate::value::lemma_wf_obj_field(fields, q);
    }
    assert forall|q1: int, q2: int| 0 <= q1 < q2 < fields.len() implies chars_lt(
        (#[trigger] fields[q1]).0,
        (#[trigger] fields[q2]).0,
    ) by {
        crate::value::lemma_wf_obj_sorted(fields, q1, q2);
    }
    if j < fields.len() && fields[j as int].0 == k {
        let new = fields.update(j, (k, v));
        assert forall|q1: int, q2: int| 0 <= q1 < q2 < new.len() implies chars_lt(
            (#[trigger] new[q1]).0,
            (#[trigger] new[q2]).0,
        ) by {
            assert(new[q1].0 == fields[q1].0);
            assert(new[q2].0 == fields[q2].0);
        }
        crate::value::lemma_wf_obj_intro(new);
    } else {
        if j < fields.len() {
            crate::text::lemma_chars_lt_connected(k, fields[j as int].0);
            assert(chars_lt(k, fields[j as int].0));
        }
        let new = fields.insert(j, (k, v));
        assert forall|q1: int, q2: int| 0 <= q1 < q2 < new.len() implies chars_lt(
            (#[trigger] new[q1]).0,
            (#[trigger] new[q2]).0,
        ) by {
            if q1 < j && q2 < j {
            } else if q1 < j && q2 == j {
                assert(new[q1].0 == fields[q1].0);
            } else if q1 < j && q2 > j {
                assert(new[q1].0 == fields[q1].0);
                assert(new[q2].0 == fields[q2 - 1].0);
            } else if q1 == j {
                assert(new[q2].0 == fields[q2 - 1].0);
                if q2 - 1 > j {
                    crate::text::lemma_chars_lt_transitive(
                        k,
                        fields[j as int].0,
                        fields[q2 - 1].0,
                    );
                }
            } else {
                assert(new[q1].0 == fields[q1 - 1].0);
                assert(new[q2].0 == fields[q2 - 1].0);
            }
        }
        assert forall|q: int| 0 <= q < new.len() implies spec_value_wf(
            (#[trigger] new[q]).1,
        ) by {
            if q < j {
                assert(new[q] == fields[q]);
            } else if q > j {
                assert(new[q] == fields[q - 1]);
            }
        }
        crate::value::lemma_wf_obj_intro(new);
    }
}

impl NotaBene {
    #[verifier::type_invariant]
    pub open spec fn inv(self) -> bool {
        spec_value_wf(SpecValue::Obj(self@))
    }

    pub fn new() -> (r: NotaBene)
        ensures
            r@ == Seq::<(Seq<char>, SpecValue)>::empty(),
    {
        let fields: Vec<(String, Value)> = Vec::new();
        proof {
            assert(spec_fields_of(fields@) =~= Seq::<(Seq<char>, SpecValue)>::empty());
            crate::value::lemma_wf_obj_intro(Seq::<(Seq<char>, SpecValue)>::empty());
        }
        NotaBene { fields }
    }

    /// Adds or replaces one constraint, keeping the record canonical; a
    /// value that is not in canonical form is rejected.
    pub fn with_field(self, key: String, value: Value) -> (r: Option<NotaBene>)
        ensures
            r matches Some(nb) ==> spec_value_wf(value@) && nb@ == spec_obj_insert(
                self@,
                key@,
                value@,
            ),
            r is None ==> !spec_value_wf(value@),
    {
        proof {
            use_type_invariant(&self);
        }
        if !value_is_canonical(&value) {
            return None;
        }
        let mut fields = self.fields;
        proof {
            crate::value::lemma_spec_fields_of_index(fields@);
        }
        let n = fields.len();
        let mut j: usize = 0;
        loop
            invariant_except_break
                j <= n,
                n == fields@.len(),
                spec_fields_of(fields@).len() == fields@.len(),
                forall|q: int| 0 <= q < fields@.len() ==> #[trigger] spec_fields_of(
                    fields@,
                )[q] == (fields@[q].0@, crate::value::spec_value_of(fields@[q].1)),
                forall|q: int| 0 <= q < j ==> chars_lt(
                    (#[trigger] spec_fields_of(fields@)[q]).0,
                    key@,
                ),
            ensures
                j <= n,
                n == fields@.len(),
                spec_fields_of(fields@).len() == fields@.len(),
                forall|q: int| 0 <= q < fields@.len() ==> #[trigger] spec_fields_of(
                    fields@,
                )[q] == (fields@[q].0@, crate::value::spec_value_of(fields@[q].1)),
                forall|q: int| 0 <= q < j ==> chars_lt(
                    (#[trigger] spec_fields_of(fields@)[q]).0,
                    key@,
                ),
                j < n ==> !chars_lt(spec_fields_of(fields@)[j as int].0, key@),
            decreases n - j,
        {
            if j == n {
                break;
            }
            if !str_lt(fields[j].0.as_str(), key.as_str()) {
                break;
            }
            j = j + 1;
        }
        let ghost old_fields = fields@;
        let ghost old_view = spec_fields_of(fields@);
        proof {
            lemma_obj_insert_at(old_view, key@, value@, j as int);
            if j < n && !chars_lt(old_view[j as int].0, key@) && old_view[j as int].0 != key@ {
                crate::text::lemma_chars_lt_connected(key@, old_view[j as int].0);
            }
        }
        let is_replace = j < n && str_eq(fields[j].0.as_str(), key.as_str());
        if is_replace {
            fields.remove(j);
            fields.insert(j, (key, value));
            proof {
                assert(fields@ =~= old_fields.update(j as int, fields@[j as int]));
            }
        } else {
            fields.insert(j, (key, value));
        }
        proof {
            crate::value::lemma_spec_fields_of_index(fields@);
            let new_view = spec_fields_of(fields@);
            if is_replace {
                assert(new_view =~= old_view.update(j as int, (key@, value@)));
            } else {
                assert(new_view =~= old_view.insert(j as int, (key@, value@)));
            }
            assert(new_view == spec_obj_insert(old_view, key@, value@));
            // the record stays canonical
            lemma_obj_insert_wf(old_view, key@, value@, j as int);
        }
        Some(NotaBene { fields })
    }

    pub fn fields(&self) -> (r: &Vec<(String, Value)>)
        ensures
            spec_fields_of(r@) == self@,
    {
        &self.fields
    }
}

// ---------------------------------------------------------------------------
// The capability aggregate: attenuations and supporting proofs.
// ---------------------------------------------------------------------------

// One constraint record, as the ghost model sees it.
pub type SpecNb = Seq<(Seq<char>, SpecValue)>;

// One granted ability under a target, with its constraint records.
pub struct SpecSlot {
    pub ability: (Seq<char>, Seq<char>),
    pub nbs: Seq<SpecNb>,
}

pub struct SpecTargetEntry {
    pub target: Seq<char>,
    pub slots: Seq<SpecSlot>,
}

pub struct SpecCapability {
    pub atts: Seq<SpecTargetEntry>,
    pub proofs: Seq<Seq<char>>,
}

#[derive(Debug, PartialEq)]
pub struct AbilityEntry {
    ability: Ability,
    nota_benes: Vec<NotaBene>,
}

#[derive(Debug, PartialEq)]
pub struct TargetEntry {
    target: Target,
    abilities: Vec<AbilityEntry>,
}

/// A set of delegated capabilities: an ordered mapping from targets to
/// granted abilities with their constraints, and a set of parent proofs.
#[derive(Debug, PartialEq)]
pub struct Capability {
    attenuations: Vec<TargetEntry>,
    proofs: Vec<ProofCid>,
}

pub open spec fn spec_nbs_of(s: Seq<NotaBene>) -> Seq<SpecNb>
    decreases s,
{
    if s.len() == 0 {
        Seq::empty()
    } else {
        seq![s[0]@] + spec_nbs_of(s.drop_first())
    }
}

pub proof fn lemma_spec_nbs_of_index(s: Seq<NotaBene>)
    ensures
        spec_nbs_of(s).len() == s.len(),
        forall|i: int| 0 <= i < s.len() ==> #[trigger] spec_nbs_of(s)[i] == s[i]@,
    decreases s,
{
    if s.len() > 0 {
        lemma_spec_nbs_of_index(s.drop_first());
        assert(forall|i: int| 0 <= i < s.len() - 1 ==> #[trigger] s.drop_first()[i] == s[i + 1]);
    }
}

impl View for AbilityEntry {
    type V = SpecSlot;

    closed spec fn view(&self) -> SpecSlot {
        SpecSlot { ability: self.ability@, nbs: spec_nbs_of(self.nota_benes@) }
    }
}

pub open spec fn spec_slots_of(s: Seq<AbilityEntry>) -> Seq<SpecSlot>
    decreases s,
{
    if s.len() == 0 {
        Seq::empty()
    } else {
        seq![s[0]@] + spec_slots_of(s.drop_first())
    }
}

pub proof fn lemma_spec_slots_of_index(s: Seq<AbilityEntry>)
    ensures
        spec_slots_of(s).len() == s.len(),
        forall|i: int| 0 <= i < s.len() ==> #[trigger] spec_slots_of(s)[i] == s[i]@,
    decreases s,
{
    if s.len() > 0 {
        lemma_spec_slots_of_index(s.drop_first());
        assert(forall|i: int| 0 <= i < s.len() - 1 ==> #[trigger] s.drop_first()[i] == s[i + 1]);
    }
}

impl View for TargetEntry {
    type V = SpecTargetEntry;

    closed spec fn view(&self) -> SpecTargetEntry {
        SpecTargetEntry { target: self.target@, slots: spec_slots_of(self.abilities@) }
    }
}

pub open spec fn spec_atts_of(s: Seq<TargetEntry>) -> Seq<SpecTargetEntry>
    decreases s,
{
    if s.len() == 0 {
        Seq::empty()
    } else {
        seq![s[0]@] + spec_atts_of(s.drop_first())
    }
}

pub proof fn lemma_spec_atts_of_index(s: Seq<TargetEntry>)
    ensures
        spec_atts_of(s).len() == s.len(),
        forall|i: int| 0 <= i < s.len() ==> #[trigger] spec_atts_of(s)[i] == s[i]@,
    decreases s,
{
    if s.len() > 0 {
        lemma_spec_atts_of_index(s.drop_first());
        assert(forall|i: int| 0 <= i < s.len() - 1 ==> #[trigger] s.drop_first()[i] == s[i + 1]);
    }
}

pub open spec fn spec_proofs_of(s: Seq<ProofCid>) -> Seq<Seq<char>>
    decreases s,
{
    if s.len() == 0 {
        Seq::empty()
    } else {
        seq![s[0]@] + spec_proofs_of(s.drop_first())
    }
}

pub proof fn lemma_spec_proofs_of_index(s: Seq<ProofCid>)
    ensures
        spec_proofs_of(s).len() == s.len(),
        forall|i: int| 0 <= i < s.len() ==> #[trigger] spec_proofs_of(s)[i] == s[i]@,
    decreases s,
{
    if s.len() > 0 {
        lemma_spec_proofs_of_index(s.drop_first());
        assert(forall|i: int| 0 <= i < s.len() - 1 ==> #[trigger] s.drop_first()[i] == s[i + 1]);
    }
}

impl View for Capability {
    type V = SpecCapability;

    closed spec fn view(&self) -> SpecCapability {
        SpecCapability {
            atts: spec_atts_of(self.attenuations@),
            proofs: spec_proofs_of(self.proofs@),
        }
    }
}

// Well-formedness of the model: validated texts, strictly ascending orders
// at every level, no target without a grant.
pub open spec fn slot_wf(sl: SpecSlot) -> bool {
    &&& ability_wf(sl.ability)
    &&& forall|j: int| 0 <= j < sl.nbs.len() ==> spec_value_wf(SpecValue::Obj(#[trigger] sl.nbs[j]))
}

pub open spec fn slots_wf(slots: Seq<SpecSlot>) -> bool {
    &&& forall|i: int| 0 <= i < slots.len() ==> slot_wf(#[trigger] slots[i])
    &&& forall|i: int, j: int|
        0 <= i < j < slots.len() ==> ability_lt(
            (#[trigger] slots[i]).ability,
            (#[trigger] slots[j]).ability,
        )
}

pub open spec fn target_entry_wf(te: SpecTargetEntry) -> bool {
    &&& is_uri_text(te.target)
    &&& te.slots.len() > 0
    &&& slots_wf(te.slots)
}

pub open spec fn spec_cap_wf(c: SpecCapability) -> bool {
    &&& forall|i: int| 0 <= i < c.atts.len() ==> target_entry_wf(#[trigger] c.atts[i])
    &&& forall|i: int, j: int|
        0 <= i < j < c.atts.len() ==> chars_lt(
            (#[trigger] c.atts[i]).target,
            (#[trigger] c.atts[j]).target,
        )
    &&& forall|i: int| 0 <= i < c.proofs.len() ==> proof_text_wf(#[trigger] c.proofs[i])
    &&& forall|i: int, j: int|
        0 <= i < j < c.proofs.len() ==> chars_lt(#[trigger] c.proofs[i], #[trigger] c.proofs[j])
}

// Lookup in the model: the first entry carrying the key, which under
// well-formedness is the only one.
pub open spec fn find_target(atts: Seq<SpecTargetEntry>, t: Seq<char>) -> Option<SpecTargetEntry>
    decreases atts.len(),
{
    if atts.len() == 0 {
        None
    } else if atts[0].target == t {
        Some(atts[0])
    } else {
        find_target(atts.drop_first(), t)
    }
}

pub open spec fn find_slot(slots: Seq<SpecSlot>, a: (Seq<char>, Seq<char>)) -> Option<SpecSlot>
    decreases slots.len(),
{
    if slots.len() == 0 {
        None
    } else if slots[0].ability == a {
        Some(slots[0])
    } else {
        find_slot(slots.drop_first(), a)
    }
}

// The constraint records at one slot, if the slot is granted at all.
pub open spec fn slot_nbs(c: SpecCapability, t: Seq<char>, a: (Seq<char>, Seq<char>)) -> Option<
    Seq<SpecNb>,
> {
    match find_target(c.atts, t) {
        None => None,
        Some(te) => match find_slot(te.slots, a) {
            None => None,
            Some(sl) => Some(sl.nbs),
        },
    }
}

pub open spec fn has_slot(c: SpecCapability, t: Seq<char>, a: (Seq<char>, Seq<char>)) -> bool {
    slot_nbs(c, t, a) is Some
}

// A scan that passed i entries without a hit finds what the remainder finds.
pub proof fn lemma_find_target_skip(atts: Seq<SpecTargetEntry>, t: Seq<char>, i: int)
    requires
        0 <= i <= atts.len(),
        forall|k: int| 0 <= k < i ==> (#[trigger] atts[k]).target != t,
    ensures
        find_target(atts, t) == find_target(atts.skip(i), t),
    decreases i,
{
    if i > 0 {
        assert(atts.drop_first() =~= atts.skip(1));
        assert(forall|k: int|
            0 <= k < i - 1 ==> #[trigger] atts.skip(1)[k] == atts[k + 1]);
        lemma_find_target_skip(atts.skip(1), t, i - 1);
        assert(atts.skip(1).skip(i - 1) =~= atts.skip(i));
    } else {
        assert(atts.skip(0) =~= atts);
    }
}

pub proof fn lemma_find_slot_skip(slots: Seq<SpecSlot>, a: (Seq<char>, Seq<char>), i: int)
    requires
        0 <= i <= slots.len(),
        forall|k: int| 0 <= k < i ==> (#[trigger] slots[k]).ability != a,
    ensures
        find_slot(slots, a) == find_slot(slots.skip(i), a),
    decreases i,
{
    if i > 0 {
        assert(slots.drop_first() =~= slots.skip(1));
        assert(forall|k: int|
            0 <= k < i - 1 ==> #[trigger] slots.skip(1)[k] == slots[k + 1]);
        lemma_find_slot_skip(slots.skip(1), a, i - 1);
        assert(slots.skip(1).skip(i - 1) =~= slots.skip(i));
    } else {
        assert(slots.skip(0) =~= slots);
    }
}

// ---------------------------------------------------------------------------
// Growing the model: slot insertion, the builder operations' meaning.
// ---------------------------------------------------------------------------

// Appends constraint records to a slot, creating the slot in ability order
// if it is absent.
pub open spec fn spec_insert_slot(
    slots: Seq<SpecSlot>,
    a: (Seq<char>, Seq<char>),
    nbs: Seq<SpecNb>,
) -> Seq<SpecSlot>
    decreases slots.len(),
{
    if slots.len() == 0 {
        seq![SpecSlot { ability: a, nbs }]
    } else if ability_lt(a, slots[0].ability) {
        seq![SpecSlot { ability: a, nbs }] + slots
    } else if a == slots[0].ability {
        seq![SpecSlot { ability: a, nbs: slots[0].nbs + nbs }] + slots.drop_first()
    } else {
        seq![slots[0]] + spec_insert_slot(slots.drop_first(), a, nbs)
    }
}

// Appends constraint records to one target's slot, creating the target in
// text order if it is absent.
pub open spec fn spec_insert_action(
    atts: Seq<SpecTargetEntry>,
    t: Seq<char>,
    a: (Seq<char>, Seq<char>),
    nbs: Seq<SpecNb>,
) -> Seq<SpecTargetEntry>
    decreases atts.len(),
{
    if atts.len() == 0 {
        seq![SpecTargetEntry { target: t, slots: seq![SpecSlot { ability: a, nbs }] }]
    } else if chars_lt(t, atts[0].target) {
        seq![SpecTargetEntry { target: t, slots: seq![SpecSlot { ability: a, nbs }] }] + atts
    } else if t == atts[0].target {
        seq![SpecTargetEntry { target: t, slots: spec_insert_slot(atts[0].slots, a, nbs) }]
            + atts.drop_first()
    } else {
        seq![atts[0]] + spec_insert_action(atts.drop_first(), t, a, nbs)
    }
}

pub open spec fn spec_with_action(
    c: SpecCapability,
    t: Seq<char>,
    a: (Seq<char>, Seq<char>),
    nbs: Seq<SpecNb>,
) -> SpecCapability {
    SpecCapability { atts: spec_insert_action(c.atts, t, a, nbs), proofs: c.proofs }
}

// Set-insertion of a proof reference, in text order, keeping one copy.
pub open spec fn spec_insert_proof(proofs: Seq<Seq<char>>, p: Seq<char>) -> Seq<Seq<char>>
    decreases proofs.len(),
{
    if proofs.len() == 0 {
        seq![p]
    } else if chars_lt(p, proofs[0]) {
        seq![p] + proofs
    } else if p == proofs[0] {
        proofs
    } else {
        seq![proofs[0]] + spec_insert_proof(proofs.drop_first(), p)
    }
}

pub open spec fn spec_with_proof(c: SpecCapability, p: Seq<char>) -> SpecCapability {
    SpecCapability { atts: c.atts, proofs: spec_insert_proof(c.proofs, p) }
}

// The position found by a sorted scan determines the insertion's shape.
proof fn lemma_insert_slot_at(
    slots: Seq<SpecSlot>,
    a: (Seq<char>, Seq<char>),
    nbs: Seq<SpecNb>,
    j: int,
)
    requires
        ability_wf(a),
        forall|q: int| 0 <= q < slots.len() ==> ability_wf((#[trigger] slots[q]).ability),
        0 <= j <= slots.len(),
        forall|q: int| 0 <= q < j ==> ability_lt((#[trigger] slots[q]).ability, a),
        j < slots.len() ==> !ability_lt(slots[j as int].ability, a),
    ensures
        j < slots.len() && slots[j as int].ability == a ==> spec_insert_slot(slots, a, nbs)
            == slots.update(j, SpecSlot { ability: a, nbs: slots[j as int].nbs + nbs }),
        !(j < slots.len() && slots[j as int].ability == a) ==> spec_insert_slot(slots, a, nbs)
            == slots.insert(j, SpecSlot { ability: a, nbs }),
    decreases j,
{
    if j == 0 {
        if slots.len() == 0 {
            assert(spec_insert_slot(slots, a, nbs) =~= slots.insert(
                0,
                SpecSlot { ability: a, nbs },
            ));
        } else if slots[0].ability == a {
            crate::ability::lemma_ability_lt_irreflexive(a);
            assert(seq![SpecSlot { ability: a, nbs: slots[0].nbs + nbs }] + slots.drop_first()
                =~= slots.update(0, SpecSlot { ability: a, nbs: slots[0].nbs + nbs }));
        } else if ability_lt(a, slots[0].ability) {
            assert(seq![SpecSlot { ability: a, nbs }] + slots =~= slots.insert(
                0,
                SpecSlot { ability: a, nbs },
            ));
        } else {
            crate::ability::lemma_ability_lt_trichotomy(a, slots[0].ability);
            assert(false);
        }
    } else {
        assert(ability_lt(slots[0].ability, a));
        crate::ability::lemma_ability_lt_trichotomy(slots[0].ability, a);
        assert(!ability_lt(a, slots[0].ability));
        assert(a != slots[0].ability);
        let rest = slots.drop_first();
        assert(forall|q: int| 0 <= q < slots.len() - 1 ==> #[trigger] rest[q] == slots[q + 1]);
        lemma_insert_slot_at(rest, a, nbs, j - 1);
        if j < slots.len() && slots[j as int].ability == a {
            assert(rest[j - 1] == slots[j as int]);
            assert(seq![slots[0]] + rest.update(
                j - 1,
                SpecSlot { ability: a, nbs: slots[j as int].nbs + nbs },
            ) =~= slots.update(j, SpecSlot { ability: a, nbs: slots[j as int].nbs + nbs }));
        } else {
            assert(seq![slots[0]] + rest.insert(j - 1, SpecSlot { ability: a, nbs })
                =~= slots.insert(j, SpecSlot { ability: a, nbs }));
        }
    }
}

proof fn lemma_insert_action_at(
    atts: Seq<SpecTargetEntry>,
    t: Seq<char>,
    a: (Seq<char>, Seq<char>),
    nbs: Seq<SpecNb>,
    j: int,
)
    requires
        0 <= j <= atts.len(),
        forall|q: int| 0 <= q < j ==> chars_lt((#[trigger] atts[q]).target, t),
        j < atts.len() ==> !chars_lt(atts[j as int].target, t),
    ensures
        j < atts.len() && atts[j as int].target == t ==> spec_insert_action(atts, t, a, nbs)
            == atts.update(
            j,
            SpecTargetEntry { target: t, slots: spec_insert_slot(atts[j as int].slots, a, nbs) },
        ),
        !(j < atts.len() && atts[j as int].target == t) ==> spec_insert_action(atts, t, a, nbs)
            == atts.insert(
            j,
            SpecTargetEntry { target: t, slots: seq![SpecSlot { ability: a, nbs }] },
        ),
    decreases j,
{
    if j == 0 {
        if atts.len() == 0 {
            assert(spec_insert_action(atts, t, a, nbs) =~= atts.insert(
                0,
                SpecTargetEntry { target: t, slots: seq![SpecSlot { ability: a, nbs }] },
            ));
        } else if atts[0].target == t {
            crate::text::lemma_chars_lt_irreflexive(t);
            assert(seq![SpecTargetEntry {
                target: t,
                slots: spec_insert_slot(atts[0].slots, a, nbs),
            }] + atts.drop_first() =~= atts.update(
                0,
                SpecTargetEntry { target: t, slots: spec_insert_slot(atts[0].slots, a, nbs) },
            ));
        } else if chars_lt(t, atts[0].target) {
            assert(seq![SpecTargetEntry { target: t, slots: seq![SpecSlot { ability: a, nbs }] }]
                + atts =~= atts.insert(
                0,
                SpecTargetEntry { target: t, slots: seq![SpecSlot { ability: a, nbs }] },
            ));
        } else {
            crate::text::lemma_chars_lt_connected(t, atts[0].target);
            assert(false);
        }
    } else {
        assert(chars_lt(atts[0].target, t));
        crate::text::lemma_chars_lt_asymmetric(atts[0].target, t);
        assert(t != atts[0].target) by {
            crate::text::lemma_chars_lt_irreflexive(t);
        }
        let rest = atts.drop_first();
        assert(forall|q: int| 0 <= q < atts.len() - 1 ==> #[trigger] rest[q] == atts[q + 1]);
        lemma_insert_action_at(rest, t, a, nbs, j - 1);
        if j < atts.len() && atts[j as int].target == t {
            assert(rest[j - 1] == atts[j as int]);
            assert(seq![atts[0]] + rest.update(
                j - 1,
                SpecTargetEntry {
                    target: t,
                    slots: spec_insert_slot(atts[j as int].slots, a, nbs),
                },
            ) =~= atts.update(
                j,
                SpecTargetEntry {
                    target: t,
                    slots: spec_insert_slot(atts[j as int].slots, a, nbs),
                },
            ));
        } else {
            assert(seq![atts[0]] + rest.insert(
                j - 1,
                SpecTargetEntry { target: t, slots: seq![SpecSlot { ability: a, nbs }] },
            ) =~= atts.insert(
                j,
                SpecTargetEntry { target: t, slots: seq![SpecSlot { ability: a, nbs }] },
            ));
        }
    }
}

proof fn lemma_insert_proof_at(proofs: Seq<Seq<char>>, p: Seq<char>, j: int)
    requires
        0 <= j <= proofs.len(),
        forall|q: int| 0 <= q < j ==> chars_lt(#[trigger] proofs[q], p),
        j < proofs.len() ==> !chars_lt(proofs[j as int], p),
    ensures
        j < proofs.len() && proofs[j as int] == p ==> spec_insert_proof(proofs, p) == proofs,
        !(j < proofs.len() && proofs[j as int] == p) ==> spec_insert_proof(proofs, p)
            == proofs.insert(j, p),
    decreases j,
{
    if j == 0 {
        if proofs.len() == 0 {
            assert(spec_insert_proof(proofs, p) =~= proofs.insert(0, p));
        } else if proofs[0] == p {
            crate::text::lemma_chars_lt_irreflexive(p);
        } else if chars_lt(p, proofs[0]) {
            assert(seq![p] + proofs =~= proofs.insert(0, p));
        } else {
            crate::text::lemma_chars_lt_connected(p, proofs[0]);
            assert(false);
        }
    } else {
        assert(chars_lt(proofs[0], p));
        crate::text::lemma_chars_lt_asymmetric(proofs[0], p);
        assert(p != proofs[0]) by {
            crate::text::lemma_chars_lt_irreflexive(p);
        }
        let rest = proofs.drop_first();
        assert(forall|q: int| 0 <= q < proofs.len() - 1 ==> #[trigger] rest[q] == proofs[q + 1]);
        lemma_insert_proof_at(rest, p, j - 1);
        if j < proofs.len() && proofs[j as int] == p {
            assert(rest[j - 1] == proofs[j as int]);
            assert(seq![proofs[0]] + rest =~= proofs);
        } else {
            assert(seq![proofs[0]] + rest.insert(j - 1, p) =~= proofs.insert(j, p));
        }
    }
}

// Slot insertion preserves well-formedness of a slot list.
proof fn lemma_insert_slot_wf(
    slots: Seq<SpecSlot>,
    a: (Seq<char>, Seq<char>),
    nbs: Seq<SpecNb>,
    j: int,
)
    requires
        slots_wf(slots),
        ability_wf(a),
        forall|q: int| 0 <= q < nbs.len() ==> spec_value_wf(SpecValue::Obj(#[trigger] nbs[q])),
        0 <= j <= slots.len(),
        forall|q: int| 0 <= q < j ==> ability_lt((#[trigger] slots[q]).ability, a),
        j < slots.len() ==> !ability_lt(slots[j as int].ability, a),
    ensures
        slots_wf(spec_insert_slot(slots, a, nbs)),
        spec_insert_slot(slots, a, nbs).len() > 0,
{
    lemma_insert_slot_at(slots, a, nbs, j);
    if j < slots.len() && slots[j as int].ability == a {
        let merged = SpecSlot { ability: a, nbs: slots[j as int].nbs + nbs };
        assert(slot_wf(merged)) by {
            assert(forall|q: int|
                0 <= q < slots[j as int].nbs.len() ==> #[trigger] merged.nbs[q] == slots[
                    j as int
                ].nbs[q]);
            assert(forall|q: int|
                0 <= q < nbs.len() ==> merged.nbs[slots[j as int].nbs.len() + q]
                    == #[trigger] nbs[q]);
            assert(forall|q: int| 0 <= q < merged.nbs.len() ==> spec_value_wf(
                SpecValue::Obj(#[trigger] merged.nbs[q]),
            ));
        }
        let new = slots.update(j, merged);
        assert forall|q1: int, q2: int| 0 <= q1 < q2 < new.len() implies ability_lt(
            (#[trigger] new[q1]).ability,
            (#[trigger] new[q2]).ability,
        ) by {
            assert(new[q1].ability == slots[q1].ability);
            assert(new[q2].ability == slots[q2].ability);
        }
    } else {
        if j < slots.len() {
            crate::ability::lemma_ability_lt_trichotomy(a, slots[j as int].ability);
            assert(ability_lt(a, slots[j as int].ability));
        }
        let new = slots.insert(j, SpecSlot { ability: a, nbs });
        assert forall|q1: int, q2: int| 0 <= q1 < q2 < new.len() implies ability_lt(
            (#[trigger] new[q1]).ability,
            (#[trigger] new[q2]).ability,
        ) by {
            if q1 < j && q2 < j {
            } else if q1 < j && q2 == j {
                assert(new[q1] == slots[q1]);
            } else if q1 < j && q2 > j {
                assert(new[q1] == slots[q1]);
                assert(new[q2] == slots[q2 - 1]);
            } else if q1 == j {
                assert(new[q2] == slots[q2 - 1]);
                if q2 - 1 > j {
                    crate::ability::lemma_ability_lt_transitive(
                        a,
                        slots[j as int].ability,
                        slots[q2 - 1].ability,
                    );
                }
            } else {
                assert(new[q1] == slots[q1 - 1]);
                assert(new[q2] == slots[q2 - 1]);
            }
        }
        assert forall|q: int| 0 <= q < new.len() implies slot_wf(#[trigger] new[q]) by {
            if q < j {
                assert(new[q] == slots[q]);
            } else if q > j {
                assert(new[q] == slots[q - 1]);
            }
        }
    }
}

// Growing one slot preserves well-formedness of the whole model.
proof fn lemma_with_action_wf(
    c: SpecCapability,
    t: Seq<char>,
    a: (Seq<char>, Seq<char>),
    nbs: Seq<SpecNb>,
    j: int,
    j2: int,
)
    requires
        spec_cap_wf(c),
        is_uri_text(t),
        ability_wf(a),
        forall|q: int| 0 <= q < nbs.len() ==> spec_value_wf(SpecValue::Obj(#[trigger] nbs[q])),
        0 <= j <= c.atts.len(),
        forall|q: int| 0 <= q < j ==> chars_lt((#[trigger] c.atts[q]).target, t),
        j < c.atts.len() ==> !chars_lt(c.atts[j as int].target, t),
        j < c.atts.len() && c.atts[j as int].target == t ==> {
            &&& 0 <= j2 <= c.atts[j as int].slots.len()
            &&& forall|q: int|
                0 <= q < j2 ==> ability_lt((#[trigger] c.atts[j as int].slots[q]).ability, a)
            &&& j2 < c.atts[j as int].slots.len() ==> !ability_lt(
                c.atts[j as int].slots[j2 as int].ability,
                a,
            )
        },
    ensures
        spec_cap_wf(spec_with_action(c, t, a, nbs)),
{
    lemma_insert_action_at(c.atts, t, a, nbs, j);
    if j < c.atts.len() && c.atts[j as int].target == t {
        lemma_insert_slot_wf(c.atts[j as int].slots, a, nbs, j2);
        let te = SpecTargetEntry {
            target: t,
            slots: spec_insert_slot(c.atts[j as int].slots, a, nbs),
        };
        assert(target_entry_wf(te));
        let new = c.atts.update(j, te);
        assert forall|q1: int, q2: int| 0 <= q1 < q2 < new.len() implies chars_lt(
            (#[trigger] new[q1]).target,
            (#[trigger] new[q2]).target,
        ) by {
            assert(new[q1].target == c.atts[q1].target);
            assert(new[q2].target == c.atts[q2].target);
        }
        assert forall|q: int| 0 <= q < new.len() implies target_entry_wf(#[trigger] new[q]) by {
            if q != j {
                assert(new[q] == c.atts[q]);
            }
        }
    } else {
        if j < c.atts.len() {
            crate::text::lemma_chars_lt_connected(t, c.atts[j as int].target);
            assert(chars_lt(t, c.atts[j as int].target));
        }
        let slots = seq![SpecSlot { ability: a, nbs }];
        assert(slots_wf(slots)) by {
            assert(slots[0] == SpecSlot { ability: a, nbs });
        }
        let te = SpecTargetEntry { target: t, slots };
        assert(target_entry_wf(te));
        let new = c.atts.insert(j, te);
        assert forall|q1: int, q2: int| 0 <= q1 < q2 < new.len() implies chars_lt(
            (#[trigger] new[q1]).target,
            (#[trigger] new[q2]).target,
        ) by {
            if q1 < j && q2 < j {
            } else if q1 < j && q2 == j {
                assert(new[q1] == c.atts[q1]);
            } else if q1 < j && q2 > j {
                assert(new[q1] == c.atts[q1]);
                assert(new[q2] == c.atts[q2 - 1]);
            } else if q1 == j {
                assert(new[q2] == c.atts[q2 - 1]);
                if q2 - 1 > j {
                    crate::text::lemma_chars_lt_transitive(
                        t,
                        c.atts[j as int].target,
                        c.atts[q2 - 1].target,
                    );
                }
            } else {
                assert(new[q1] == c.atts[q1 - 1]);
                assert(new[q2] == c.atts[q2 - 1]);
            }
        }
        assert forall|q: int| 0 <= q < new.len() implies target_entry_wf(#[trigger] new[q]) by {
            if q < j {
                assert(new[q] == c.atts[q]);
            } else if q > j {
                assert(new[q] == c.atts[q - 1]);
            }
        }
    }
}

proof fn lemma_with_proof_wf(c: SpecCapability, p: Seq<char>, j: int)
    requires
        spec_cap_wf(c),
        proof_text_wf(p),
        0 <= j <= c.proofs.len(),
        forall|q: int| 0 <= q < j ==> chars_lt(#[trigger] c.proofs[q], p),
        j < c.proofs.len() ==> !chars_lt(c.proofs[j as int], p),
    ensures
        spec_cap_wf(spec_with_proof(c, p)),
{
    lemma_insert_proof_at(c.proofs, p, j);
    if j < c.proofs.len() && c.proofs[j as int] == p {
    } else {
        if j < c.proofs.len() {
            crate::text::lemma_chars_lt_connected(p, c.proofs[j as int]);
            assert(chars_lt(p, c.proofs[j as int]));
        }
        let new = c.proofs.insert(j, p);
        assert forall|q1: int, q2: int| 0 <= q1 < q2 < new.len() implies chars_lt(
            #[trigger] new[q1],
            #[trigger] new[q2],
        ) by {
            if q1 < j && q2 < j {
            } else if q1 < j && q2 == j {
                assert(new[q1] == c.proofs[q1]);
            } else if q1 < j && q2 > j {
                assert(new[q1] == c.proofs[q1]);
                assert(new[q2] == c.proofs[q2 - 1]);
            } else if q1 == j {
                assert(new[q2] == c.proofs[q2 - 1]);
                if q2 - 1 > j {
                    crate::text::lemma_chars_lt_transitive(
                        p,
                        c.proofs[j as int],
                        c.proofs[q2 - 1],
                    );
                }
            } else {
                assert(new[q1] == c.proofs[q1 - 1]);
                assert(new[q2] == c.proofs[q2 - 1]);
            }
        }
        assert forall|q: int| 0 <= q < new.len() implies proof_text_wf(#[trigger] new[q]) by {
            if q < j {
                assert(new[q] == c.proofs[q]);
            } else if q > j {
                assert(new[q] == c.proofs[q - 1]);
            }
        }
    }
}

pub open spec fn spec_with_proofs(c: SpecCapability, ps: Seq<Seq<char>>) -> SpecCapability
    decreases ps.len(),
{
    if ps.len() == 0 {
        c
    } else {
        spec_with_proofs(spec_with_proof(c, ps[0]), ps.drop_first())
    }
}

pub open spec fn spec_with_actions(
    c: SpecCapability,
    t: Seq<char>,
    acts: Seq<((Seq<char>, Seq<char>), Seq<SpecNb>)>,
) -> SpecCapability
    decreases acts.len(),
{
    if acts.len() == 0 {
        c
    } else {
        spec_with_actions(spec_with_action(c, t, acts[0].0, acts[0].1), t, acts.drop_first())
    }
}

pub open spec fn spec_actions_of(s: Seq<(Ability, Vec<NotaBene>)>) -> Seq<
    ((Seq<char>, Seq<char>), Seq<SpecNb>),
>
    decreases s,
{
    if s.len() == 0 {
        Seq::empty()
    } else {
        seq![(s[0].0@, spec_nbs_of(s[0].1@))] + spec_actions_of(s.drop_first())
    }
}

pub proof fn lemma_spec_actions_of_index(s: Seq<(Ability, Vec<NotaBene>)>)
    ensures
        spec_actions_of(s).len() == s.len(),
        forall|i: int| 0 <= i < s.len() ==> #[trigger] spec_actions_of(s)[i] == (
            s[i].0@,
            spec_nbs_of(s[i].1@),
        ),
    decreases s,
{
    if s.len() > 0 {
        lemma_spec_actions_of_index(s.drop_first());
        assert(forall|i: int| 0 <= i < s.len() - 1 ==> #[trigger] s.drop_first()[i] == s[i + 1]);
    }
}

// The meaning of a merge: the other operand's slots are appended slot by
// slot, then its proofs are united in.
pub open spec fn spec_merge_slots(c: SpecCapability, t: Seq<char>, slots: Seq<SpecSlot>) -> SpecCapability
    decreases slots.len(),
{
    if slots.len() == 0 {
        c
    } else {
        spec_merge_slots(spec_with_action(c, t, slots[0].ability, slots[0].nbs), t, slots.drop_first())
    }
}

pub open spec fn spec_merge_atts(c: SpecCapability, atts: Seq<SpecTargetEntry>) -> SpecCapability
    decreases atts.len(),
{
    if atts.len() == 0 {
        c
    } else {
        spec_merge_atts(spec_merge_slots(c, atts[0].target, atts[0].slots), atts.drop_first())
    }
}

pub open spec fn spec_merge(a: SpecCapability, b: SpecCapability) -> SpecCapability {
    spec_with_proofs(spec_merge_atts(a, b.atts), b.proofs)
}

proof fn lemma_spec_nbs_concat(a: Seq<NotaBene>, b: Seq<NotaBene>)
    ensures
        spec_nbs_of(a + b) == spec_nbs_of(a) + spec_nbs_of(b),
{
    lemma_spec_nbs_of_index(a);
    lemma_spec_nbs_of_index(b);
    lemma_spec_nbs_of_index(a + b);
    assert(spec_nbs_of(a + b) =~= spec_nbs_of(a) + spec_nbs_of(b)) by {
        assert(forall|q: int| 0 <= q < a.len() ==> #[trigger] (a + b)[q] == a[q]);
        assert(forall|q: int| 0 <= q < b.len() ==> #[trigger] (a + b)[a.len() + q] == b[q]);
    }
}

impl AbilityEntry {
    pub fn ability(&self) -> (r: &Ability)
        ensures
            r@ == self@.ability,
    {
        &self.ability
    }

    pub fn nota_benes(&self) -> (r: &Vec<NotaBene>)
        ensures
            spec_nbs_of(r@) == self@.nbs,
    {
        &self.nota_benes
    }
}

impl TargetEntry {
    pub fn target(&self) -> (r: &Target)
        ensures
            r@ == self@.target,
    {
        &self.target
    }

    pub fn abilities(&self) -> (r: &Vec<AbilityEntry>)
        ensures
            spec_slots_of(r@) == self@.slots,
    {
        &self.abilities
    }
}

impl Capability {
    #[verifier::type_invariant]
    pub open spec fn inv(self) -> bool {
        spec_cap_wf(self@)
    }

    /// A capability that grants nothing and carries no proofs.
    pub fn new() -> (r: Capability)
        ensures
            r@.atts == Seq::<SpecTargetEntry>::empty(),
            r@.proofs == Seq::<Seq<char>>::empty(),
    {
        let attenuations: Vec<TargetEntry> = Vec::new();
        let proofs: Vec<ProofCid> = Vec::new();
        proof {
            assert(spec_atts_of(attenuations@) =~= Seq::<SpecTargetEntry>::empty());
            assert(spec_proofs_of(proofs@) =~= Seq::<Seq<char>>::empty());
        }
        Capability { attenuations, proofs }
    }

    /// Read-only view over the ordered attenuations.
    pub fn abilities(&self) -> (r: &Vec<TargetEntry>)
        ensures
            spec_atts_of(r@) == self@.atts,
    {
        &self.attenuations
    }

    /// The set of proofs that support the granted capabilities.
    pub fn proofs(&self) -> (r: &Vec<ProofCid>)
        ensures
            spec_proofs_of(r@) == self@.proofs,
    {
        &self.proofs
    }


    /// Appends the given constraint records to the slot for this target and
    /// ability, creating the slot if it is absent.
    pub fn with_action(&mut self, target: Target, ability: Ability, nota_benes: Vec<NotaBene>)
        ensures
            final(self)@ == spec_with_action(
                old(self)@,
                target@,
                ability@,
                spec_nbs_of(nota_benes@),
            ),
    {
        proof {
            use_type_invariant(&*self);
            use_type_invariant(&target);
            use_type_invariant(&ability);
        }
        let ghost nbsv = spec_nbs_of(nota_benes@);
        proof {
            lemma_spec_nbs_of_index(nota_benes@);
        }
        // gather the records' own invariants
        let nb_count = nota_benes.len();
        let mut qi: usize = 0;
        while qi < nb_count
            invariant
                qi <= nb_count,
                nb_count == nota_benes@.len(),
                spec_nbs_of(nota_benes@).len() == nota_benes@.len(),
                forall|k: int| 0 <= k < nota_benes@.len() ==> #[trigger] spec_nbs_of(
                    nota_benes@,
                )[k] == nota_benes@[k]@,
                nbsv == spec_nbs_of(nota_benes@),
                forall|k: int| 0 <= k < qi ==> spec_value_wf(
                    SpecValue::Obj(#[trigger] spec_nbs_of(nota_benes@)[k]),
                ),
            decreases nb_count - qi,
        {
            let nb_ref = &nota_benes[qi];
            proof {
                use_type_invariant(nb_ref);
                assert(nota_benes@[qi as int]@ == nb_ref@);
            }
            qi = qi + 1;
        }
        let ghost old_cap = self@;
        let mut atts: Vec<TargetEntry> = Vec::new();
        proof {
            assert(spec_atts_of(Seq::<TargetEntry>::empty()) =~= Seq::<SpecTargetEntry>::empty());
        }
        proof {
            assert(spec_cap_wf(
                SpecCapability { atts: spec_atts_of(Seq::<TargetEntry>::empty()), proofs: old_cap.proofs },
            ));
        }
        core::mem::swap(&mut atts, &mut self.attenuations);
        proof {
            lemma_spec_atts_of_index(atts@);
        }
        let n = atts.len();
        let mut j: usize = 0;
        loop
            invariant_except_break
                j <= n,
                n == atts@.len(),
                forall|k: int| 0 <= k < n ==> #[trigger] spec_atts_of(atts@)[k] == atts@[k]@,
                spec_atts_of(atts@).len() == n,
                forall|k: int| 0 <= k < j ==> chars_lt(
                    (#[trigger] spec_atts_of(atts@)[k]).target,
                    target@,
                ),
            ensures
                j <= n,
                n == atts@.len(),
                forall|k: int| 0 <= k < n ==> #[trigger] spec_atts_of(atts@)[k] == atts@[k]@,
                spec_atts_of(atts@).len() == n,
                forall|k: int| 0 <= k < j ==> chars_lt(
                    (#[trigger] spec_atts_of(atts@)[k]).target,
                    target@,
                ),
                j < n ==> !chars_lt(spec_atts_of(atts@)[j as int].target, target@),
            decreases n - j,
        {
            if j == n {
                break;
            }
            if !str_lt(atts[j].target.text.as_str(), target.text.as_str()) {
                break;
            }
            j = j + 1;
        }
        let ghost oatts = spec_atts_of(atts@);
        let ghost oatts_vec = atts@;
        proof {
            lemma_insert_action_at(oatts, target@, ability@, nbsv, j as int);
        }
        let is_update = j < n && str_eq(atts[j].target.text.as_str(), target.text.as_str());
        if is_update {
            let mut te = atts.remove(j);
            proof {
                lemma_spec_slots_of_index(te.abilities@);
            }
            let m = te.abilities.len();
            let mut j2: usize = 0;
            loop
                invariant_except_break
                    j2 <= m,
                    m == te.abilities@.len(),
                    forall|k: int| 0 <= k < m ==> #[trigger] spec_slots_of(
                        te.abilities@,
                    )[k] == te.abilities@[k]@,
                    spec_slots_of(te.abilities@).len() == m,
                    forall|k: int| 0 <= k < j2 ==> ability_lt(
                        (#[trigger] spec_slots_of(te.abilities@)[k]).ability,
                        ability@,
                    ),
                ensures
                    j2 <= m,
                    m == te.abilities@.len(),
                    forall|k: int| 0 <= k < m ==> #[trigger] spec_slots_of(
                        te.abilities@,
                    )[k] == te.abilities@[k]@,
                    spec_slots_of(te.abilities@).len() == m,
                    forall|k: int| 0 <= k < j2 ==> ability_lt(
                        (#[trigger] spec_slots_of(te.abilities@)[k]).ability,
                        ability@,
                    ),
                    j2 < m ==> !ability_lt(
                        spec_slots_of(te.abilities@)[j2 as int].ability,
                        ability@,
                    ),
                decreases m - j2,
            {
                if j2 == m {
                    break;
                }
                if !crate::ability::ability_precedes(&te.abilities[j2].ability, &ability) {
                    break;
                }
                j2 = j2 + 1;
            }
            let ghost oslots = spec_slots_of(te.abilities@);
            let ghost oslots_vec = te.abilities@;
            proof {
                // the entry found is the one the model updates
                assert(oatts[j as int] == te@);
                assert(forall|q: int| 0 <= q < oatts.len() ==> ability_wf(
                    (#[trigger] oatts[j as int].slots[q]).ability) || true);
                assert(slots_wf(oslots)) by {
                    assert(target_entry_wf(oatts[j as int]));
                }
                assert forall|q: int| 0 <= q < oslots.len() implies ability_wf(
                    (#[trigger] oslots[q]).ability,
                ) by {
                    assert(slot_wf(oslots[q]));
                }
                lemma_insert_slot_at(oslots, ability@, nbsv, j2 as int);
                lemma_with_action_wf(old_cap, target@, ability@, nbsv, j as int, j2 as int);
            }
            let is_slot_update = j2 < m && te.abilities[j2].ability.eq(&ability);
            if is_slot_update {
                let mut ae = te.abilities.remove(j2);
                let ghost orig_nbs_vec = ae.nota_benes@;
                let mut incoming = nota_benes;
                let ghost incoming_vec = incoming@;
                ae.nota_benes.append(&mut incoming);
                proof {
                    assert(ae.nota_benes@ == orig_nbs_vec + incoming_vec);
                    lemma_spec_nbs_concat(orig_nbs_vec, incoming_vec);
                    assert(spec_nbs_of(orig_nbs_vec) == oslots[j2 as int].nbs);
                    assert(spec_nbs_of(incoming_vec) == nbsv);
                    assert(spec_nbs_of(ae.nota_benes@) == oslots[j2 as int].nbs + nbsv);
                    assert(ae@ == SpecSlot {
                        ability: ability@,
                        nbs: oslots[j2 as int].nbs + nbsv,
                    }) by {
                        assert(ae.ability@ == oslots[j2 as int].ability);
                    }
                }
                te.abilities.insert(j2, ae);
                proof {
                    lemma_spec_slots_of_index(te.abilities@);
                    assert(spec_slots_of(te.abilities@) =~= oslots.update(
                        j2 as int,
                        SpecSlot { ability: ability@, nbs: oslots[j2 as int].nbs + nbsv },
                    )) by {
                        assert(te.abilities@ =~= oslots_vec.update(
                            j2 as int,
                            te.abilities@[j2 as int],
                        ));
                    }
                }
            } else {
                te.abilities.insert(j2, AbilityEntry { ability, nota_benes });
                proof {
                    lemma_spec_slots_of_index(te.abilities@);
                    assert(spec_slots_of(te.abilities@) =~= oslots.insert(
                        j2 as int,
                        SpecSlot { ability: ability@, nbs: nbsv },
                    )) by {
                        assert(te.abilities@ =~= oslots_vec.insert(
                            j2 as int,
                            te.abilities@[j2 as int],
                        ));
                    }
                }
            }
            proof {
                assert(te@ == SpecTargetEntry {
                    target: target@,
                    slots: spec_insert_slot(oslots, ability@, nbsv),
                }) by {
                    assert(te.target@ == target@);
                }
            }
            atts.insert(j, te);
            proof {
                lemma_spec_atts_of_index(atts@);
                assert(spec_atts_of(atts@) =~= oatts.update(
                    j as int,
                    SpecTargetEntry {
                        target: target@,
                        slots: spec_insert_slot(oatts[j as int].slots, ability@, nbsv),
                    },
                )) by {
                    assert(atts@ =~= oatts_vec.update(j as int, atts@[j as int]));
                }
            }
        } else {
            proof {
                lemma_with_action_wf(old_cap, target@, ability@, nbsv, j as int, 0);
            }
            let mut abilities: Vec<AbilityEntry> = Vec::new();
            abilities.push(AbilityEntry { ability, nota_benes });
            proof {
                lemma_spec_slots_of_index(abilities@);
                assert(spec_slots_of(abilities@) =~= seq![SpecSlot {
                    ability: ability@,
                    nbs: nbsv,
                }]);
            }
            let te = TargetEntry { target, abilities };
            atts.insert(j, te);
            proof {
                lemma_spec_atts_of_index(atts@);
                assert(spec_atts_of(atts@) =~= oatts.insert(
                    j as int,
                    SpecTargetEntry {
                        target: atts@[j as int].target@,
                        slots: seq![SpecSlot { ability: atts@[j as int]@.slots[0].ability, nbs: nbsv }],
                    },
                )) by {
                    assert(atts@ =~= oatts_vec.insert(j as int, atts@[j as int]));
                }
            }
        }
        proof {
            assert(spec_atts_of(atts@) == spec_insert_action(oatts, target@, ability@, nbsv));
            assert(spec_cap_wf(SpecCapability {
                atts: spec_atts_of(atts@),
                proofs: old_cap.proofs,
            }));
        }
        core::mem::swap(&mut atts, &mut self.attenuations);
    }

    /// Adds one supporting proof reference; a reference already present is
    /// kept once.
    pub fn with_proof(self, proof_ref: &ProofCid) -> (r: Capability)
        ensures
            r@ == spec_with_proof(self@, proof_ref@),
    {
        proof {
            use_type_invariant(&self);
            use_type_invariant(proof_ref);
        }
        let ghost old_cap = self@;
        let Capability { attenuations, mut proofs } = self;
        proof {
            lemma_spec_proofs_of_index(proofs@);
        }
        let n = proofs.len();
        let mut j: usize = 0;
        loop
            invariant_except_break
                j <= n,
                n == proofs@.len(),
                forall|k: int| 0 <= k < n ==> #[trigger] spec_proofs_of(proofs@)[k] == proofs@[k]@,
                spec_proofs_of(proofs@).len() == n,
                forall|k: int| 0 <= k < j ==> chars_lt(
                    #[trigger] spec_proofs_of(proofs@)[k],
                    proof_ref@,
                ),
            ensures
                j <= n,
                n == proofs@.len(),
                forall|k: int| 0 <= k < n ==> #[trigger] spec_proofs_of(proofs@)[k] == proofs@[k]@,
                spec_proofs_of(proofs@).len() == n,
                forall|k: int| 0 <= k < j ==> chars_lt(
                    #[trigger] spec_proofs_of(proofs@)[k],
                    proof_ref@,
                ),
                j < n ==> !chars_lt(spec_proofs_of(proofs@)[j as int], proof_ref@),
            decreases n - j,
        {
            if j == n {
                break;
            }
            if !str_lt(proofs[j].text.as_str(), proof_ref.text.as_str()) {
                break;
            }
            j = j + 1;
        }
        let ghost oproofs = spec_proofs_of(proofs@);
        let ghost oproofs_vec = proofs@;
        proof {
            lemma_insert_proof_at(oproofs, proof_ref@, j as int);
            lemma_with_proof_wf(old_cap, proof_ref@, j as int);
        }
        let is_present = j < n && str_eq(proofs[j].text.as_str(), proof_ref.text.as_str());
        if !is_present {
            proofs.insert(j, proof_ref.clone());
            proof {
                lemma_spec_proofs_of_index(proofs@);
                assert(spec_proofs_of(proofs@) =~= oproofs.insert(j as int, proof_ref@)) by {
                    assert(proofs@ =~= oproofs_vec.insert(j as int, proofs@[j as int]));
                }
            }
        } else {
            proof {
                assert(oproofs[j as int] == proof_ref@);
            }
        }
        Capability { attenuations, proofs }
    }

    /// Adds several supporting proof references.
    pub fn with_proofs(self, proof_refs: &Vec<ProofCid>) -> (r: Capability)
        ensures
            r@ == spec_with_proofs(self@, spec_proofs_of(proof_refs@)),
    {
        let ghost all = spec_proofs_of(proof_refs@);
        let ghost s0 = self@;
        proof {
            lemma_spec_proofs_of_index(proof_refs@);
            assert(all.skip(0) =~= all);
        }
        let mut acc = self;
        let n = proof_refs.len();
        let mut i: usize = 0;
        while i < n
            invariant
                i <= n,
                n == proof_refs@.len(),
                spec_proofs_of(proof_refs@).len() == n,
                forall|k: int| 0 <= k < n ==> #[trigger] spec_proofs_of(
                    proof_refs@,
                )[k] == proof_refs@[k]@,
                all == spec_proofs_of(proof_refs@),
                spec_with_proofs(acc@, all.skip(i as int)) == spec_with_proofs(s0, all),
            decreases n - i,
        {
            proof {
                assert(all.skip(i as int)[0] == proof_refs@[i as int]@);
                assert(all.skip(i as int).drop_first() =~= all.skip(i + 1));
            }
            acc = acc.with_proof(&proof_refs[i]);
            i = i + 1;
        }
        proof {
            assert(all.skip(n as int).len() == 0);
        }
        acc
    }

    /// Appends, per ability, the given constraint records for one target.
    pub fn with_actions(&mut self, target: &Target, actions: Vec<(Ability, Vec<NotaBene>)>)
        ensures
            final(self)@ == spec_with_actions(old(self)@, target@, spec_actions_of(actions@)),
    {
        let ghost all = spec_actions_of(actions@);
        proof {
            lemma_spec_actions_of_index(actions@);
        }
        let mut remaining = actions;
        proof {
            assert(spec_actions_of(remaining@).skip(0) =~= all);
        }
        while remaining.len() > 0
            invariant
                spec_actions_of(remaining@).len() == remaining@.len(),
                forall|k: int| 0 <= k < remaining@.len() ==> #[trigger] spec_actions_of(
                    remaining@,
                )[k] == (remaining@[k].0@, spec_nbs_of(remaining@[k].1@)),
                spec_with_actions(self@, target@, spec_actions_of(remaining@))
                    == spec_with_actions(old(self)@, target@, all),
            decreases remaining@.len(),
        {
            let ghost pre = remaining@;
            let (ability, nbs) = remaining.remove(0);
            proof {
                assert(remaining@ =~= pre.drop_first());
                lemma_spec_actions_of_index(pre);
                lemma_spec_actions_of_index(pre.drop_first());
                assert(spec_actions_of(pre.drop_first()) =~= spec_actions_of(pre).drop_first())
                    by {
                    assert(forall|k: int|
                        0 <= k < pre.len() - 1 ==> #[trigger] pre.drop_first()[k] == pre[k + 1]);
                }
                assert(spec_actions_of(pre)[0] == (ability@, spec_nbs_of(nbs@)));
            }
            self.with_action(target.clone(), ability, nbs);
        }
    }

    /// Merges another capability into this one: per slot, the other's
    /// constraint records come after this one's; the proof sets unite.
    pub fn merge(self, other: Capability) -> (r: Capability)
        ensures
            r@ == spec_merge(self@, other@),
    {
        let ghost a0 = self@;
        let ghost b0 = other@;
        let mut acc = self;
        let Capability { attenuations: mut other_atts, proofs: other_proofs } = other;
        proof {
            lemma_spec_atts_of_index(other_atts@);
        }
        let ghost batts = spec_atts_of(other_atts@);
        while other_atts.len() > 0
            invariant
                spec_atts_of(other_atts@).len() == other_atts@.len(),
                forall|k: int| 0 <= k < other_atts@.len() ==> #[trigger] spec_atts_of(
                    other_atts@,
                )[k] == other_atts@[k]@,
                spec_merge_atts(acc@, spec_atts_of(other_atts@)) == spec_merge_atts(a0, batts),
            decreases other_atts@.len(),
        {
            let ghost pre = other_atts@;
            let te = other_atts.remove(0);
            proof {
                assert(other_atts@ =~= pre.drop_first());
                lemma_spec_atts_of_index(pre);
                lemma_spec_atts_of_index(pre.drop_first());
                assert(spec_atts_of(pre.drop_first()) =~= spec_atts_of(pre).drop_first()) by {
                    assert(forall|k: int|
                        0 <= k < pre.len() - 1 ==> #[trigger] pre.drop_first()[k] == pre[k + 1]);
                }
                assert(spec_atts_of(pre)[0] == te@);
            }
            let TargetEntry { target, abilities: mut slots } = te;
            proof {
                lemma_spec_slots_of_index(slots@);
                assert(spec_slots_of(slots@).skip(0) =~= spec_slots_of(slots@));
            }
            let ghost bslots = spec_slots_of(slots@);
            let ghost acc_at_target = acc@;
            while slots.len() > 0
                invariant
                    spec_slots_of(slots@).len() == slots@.len(),
                    forall|k: int| 0 <= k < slots@.len() ==> #[trigger] spec_slots_of(
                        slots@,
                    )[k] == slots@[k]@,
                    spec_merge_slots(acc@, target@, spec_slots_of(slots@)) == spec_merge_slots(
                        acc_at_target,
                        target@,
                        bslots,
                    ),
                decreases slots@.len(),
            {
                let ghost spre = slots@;
                let ae = slots.remove(0);
                proof {
                    assert(slots@ =~= spre.drop_first());
                    lemma_spec_slots_of_index(spre);
                    lemma_spec_slots_of_index(spre.drop_first());
                    assert(spec_slots_of(spre.drop_first()) =~= spec_slots_of(
                        spre,
                    ).drop_first()) by {
                        assert(forall|k: int|
                            0 <= k < spre.len() - 1 ==> #[trigger] spre.drop_first()[k] == spre[
                                k + 1
                            ]);
                    }
                    assert(spec_slots_of(spre)[0] == ae@);
                }
                let AbilityEntry { ability, nota_benes } = ae;
                proof {
                    assert(spec_slots_of(spre)[0].ability == ability@);
                    assert(spec_slots_of(spre)[0].nbs == spec_nbs_of(nota_benes@));
                }
                acc.with_action(target.clone(), ability, nota_benes);
            }
            proof {
                assert(spec_slots_of(slots@).len() == 0);
                assert(acc@ == spec_merge_slots(acc_at_target, target@, bslots));
                assert(spec_atts_of(pre)[0].target == target@);
                assert(spec_atts_of(pre)[0].slots == bslots);
            }
        }
        proof {
            assert(spec_proofs_of(other_proofs@) == b0.proofs);
            assert(spec_atts_of(other_atts@).len() == 0);
            assert(acc@ == spec_merge_atts(a0, b0.atts));
        }
        acc.with_proofs(&other_proofs)
    }

    /// Exact lookup: the constraint records for one target and ability, or
    /// nothing when either is absent.
    pub fn can_do(&self, target: &Target, ability: &Ability) -> (r: Option<&Vec<NotaBene>>)
        ensures
            r is Some <==> has_slot(self@, target@, ability@),
            r matches Some(nbs) ==> slot_nbs(self@, target@, ability@) == Some(
                spec_nbs_of(nbs@),
            ),
    {
        proof {
            lemma_spec_atts_of_index(self.attenuations@);
        }
        let n = self.attenuations.len();
        let mut i: usize = 0;
        loop
            invariant_except_break
                i <= n,
                n == self.attenuations@.len(),
                spec_atts_of(self.attenuations@).len() == n,
                forall|k: int| 0 <= k < n ==> #[trigger] spec_atts_of(
                    self.attenuations@,
                )[k] == self.attenuations@[k]@,
                self@.atts == spec_atts_of(self.attenuations@),
                forall|k: int| 0 <= k < i ==> (#[trigger] self@.atts[k]).target != target@,
            ensures
                i <= n,
                n == self.attenuations@.len(),
                forall|k: int| 0 <= k < n ==> #[trigger] spec_atts_of(
                    self.attenuations@,
                )[k] == self.attenuations@[k]@,
                self@.atts == spec_atts_of(self.attenuations@),
                forall|k: int| 0 <= k < i ==> (#[trigger] self@.atts[k]).target != target@,
                i < n ==> self@.atts[i as int].target == target@,
            decreases n - i,
        {
            if i == n {
                break;
            }
            if str_eq(self.attenuations[i].target.text.as_str(), target.text.as_str()) {
                break;
            }
            i = i + 1;
        }
        proof {
            lemma_find_target_skip(self@.atts, target@, i as int);
        }
        if i == n {
            proof {
                assert(self@.atts.skip(i as int).len() == 0);
            }
            return None;
        }
        proof {
            assert(self@.atts.skip(i as int)[0] == self@.atts[i as int]);
            assert(find_target(self@.atts, target@) == Some(self@.atts[i as int]));
        }
        let entry = &self.attenuations[i];
        proof {
            lemma_spec_slots_of_index(entry.abilities@);
        }
        let m = entry.abilities.len();
        let mut j: usize = 0;
        loop
            invariant_except_break
                j <= m,
                m == entry.abilities@.len(),
                forall|k: int| 0 <= k < m ==> #[trigger] spec_slots_of(
                    entry.abilities@,
                )[k] == entry.abilities@[k]@,
                entry@.slots == spec_slots_of(entry.abilities@),
                forall|k: int| 0 <= k < j ==> (#[trigger] entry@.slots[k]).ability != ability@,
            ensures
                j <= m,
                m == entry.abilities@.len(),
                forall|k: int| 0 <= k < m ==> #[trigger] spec_slots_of(
                    entry.abilities@,
                )[k] == entry.abilities@[k]@,
                entry@.slots == spec_slots_of(entry.abilities@),
                forall|k: int| 0 <= k < j ==> (#[trigger] entry@.slots[k]).ability != ability@,
                j < m ==> entry@.slots[j as int].ability == ability@,
            decreases m - j,
        {
            if j == m {
                break;
            }
            if entry.abilities[j].ability.eq(ability) {
                break;
            }
            j = j + 1;
        }
        proof {
            lemma_find_slot_skip(entry@.slots, ability@, j as int);
        }
        if j == m {
            proof {
                assert(entry@.slots.skip(j as int).len() == 0);
            }
            return None;
        }
        proof {
            assert(entry@.slots.skip(j as int)[0] == entry@.slots[j as int]);
            assert(find_slot(entry@.slots, ability@) == Some(entry@.slots[j as int]));
        }
        Some(&entry.abilities[j].nota_benes)
    }
}

// Errors of the loosely-typed entry points, raised before any mutation.
#[derive(Debug, PartialEq, Eq)]
pub enum ConvertError {
    InvalidTarget,
    InvalidAction(crate::ability::ActionParseError),
}

// Whether a text parses as an ability, and the halves it parses into.
pub open spec fn valid_action_text(s: Seq<char>) -> bool {
    match crate::ability::find_char(s, '/') {
        Some(i) => crate::ability::valid_ability_part(s.take(i))
            && crate::ability::valid_ability_part(s.skip(i + 1)),
        None => false,
    }
}

pub open spec fn parsed_action(s: Seq<char>) -> (Seq<char>, Seq<char>) {
    let i = crate::ability::find_char(s, '/')->Some_0;
    (s.take(i), s.skip(i + 1))
}

pub open spec fn spec_str_actions_of(s: Seq<(&str, Vec<NotaBene>)>) -> Seq<
    ((Seq<char>, Seq<char>), Seq<SpecNb>),
>
    decreases s,
{
    if s.len() == 0 {
        Seq::empty()
    } else {
        seq![(parsed_action(s[0].0@), spec_nbs_of(s[0].1@))] + spec_str_actions_of(
            s.drop_first(),
        )
    }
}

pub proof fn lemma_spec_str_actions_of_index(s: Seq<(&str, Vec<NotaBene>)>)
    ensures
        spec_str_actions_of(s).len() == s.len(),
        forall|i: int| 0 <= i < s.len() ==> #[trigger] spec_str_actions_of(s)[i] == (
            parsed_action(s[i].0@),
            spec_nbs_of(s[i].1@),
        ),
    decreases s,
{
    if s.len() > 0 {
        lemma_spec_str_actions_of_index(s.drop_first());
        assert(forall|i: int| 0 <= i < s.len() - 1 ==> #[trigger] s.drop_first()[i] == s[i + 1]);
    }
}

impl Capability {
    /// Checks a grant for loosely-typed inputs, validating both before any
    /// lookup.
    pub fn can(&self, target: &str, action: &str) -> (r: Result<
        Option<&Vec<NotaBene>>,
        ConvertError,
    >)
        ensures
            !is_uri_text(target@) ==> r == Err::<Option<&Vec<NotaBene>>, ConvertError>(
                ConvertError::InvalidTarget,
            ),
            is_uri_text(target@) && !valid_action_text(action@) ==> (r matches Err(e)
                && e is InvalidAction),
            is_uri_text(target@) && valid_action_text(action@) ==> (r matches Ok(o) && {
                &&& (o is Some <==> has_slot(self@, target@, parsed_action(action@)))
                &&& (o matches Some(nbs) ==> slot_nbs(self@, target@, parsed_action(action@))
                    == Some(spec_nbs_of(nbs@)))
            }),
    {
        let t = match Target::parse(target) {
            Some(t) => t,
            None => {
                return Err(ConvertError::InvalidTarget);
            },
        };
        let a = match Ability::parse(action) {
            Ok(a) => a,
            Err(e) => {
                return Err(ConvertError::InvalidAction(e));
            },
        };
        Ok(self.can_do(&t, &a))
    }

    /// Appends constraint records for loosely-typed inputs; both are
    /// validated before any mutation, so a failure leaves the value as it
    /// was.
    pub fn with_action_convert(
        &mut self,
        target: &str,
        action: &str,
        nota_benes: Vec<NotaBene>,
    ) -> (r: Result<(), ConvertError>)
        ensures
            r is Ok <==> is_uri_text(target@) && valid_action_text(action@),
            r is Ok ==> final(self)@ == spec_with_action(
                old(self)@,
                target@,
                parsed_action(action@),
                spec_nbs_of(nota_benes@),
            ),
            r is Err ==> *final(self) == *old(self),
            !is_uri_text(target@) ==> r == Err::<(), ConvertError>(ConvertError::InvalidTarget),
            is_uri_text(target@) && !valid_action_text(action@) ==> (r matches Err(e)
                && e is InvalidAction),
    {
        let t = match Target::parse(target) {
            Some(t) => t,
            None => {
                return Err(ConvertError::InvalidTarget);
            },
        };
        let a = match Ability::parse(action) {
            Ok(a) => a,
            Err(e) => {
                return Err(ConvertError::InvalidAction(e));
            },
        };
        self.with_action(t, a, nota_benes);
        Ok(())
    }

    /// Appends, per ability, constraint records for loosely-typed inputs;
    /// everything is validated before any mutation.
    pub fn with_actions_convert(&mut self, target: &str, actions: Vec<(&str, Vec<NotaBene>)>)
        -> (r: Result<(), ConvertError>)
        ensures
            r is Ok <==> is_uri_text(target@) && (forall|k: int|
                0 <= k < actions@.len() ==> valid_action_text((#[trigger] actions@[k]).0@)),
            r is Ok ==> final(self)@ == spec_with_actions(
                old(self)@,
                target@,
                spec_str_actions_of(actions@),
            ),
            r is Err ==> *final(self) == *old(self),
    {
        let t = match Target::parse(target) {
            Some(t) => t,
            None => {
                return Err(ConvertError::InvalidTarget);
            },
        };
        let ghost orig = spec_str_actions_of(actions@);
        let ghost orig_vec = actions@;
        proof {
            lemma_spec_str_actions_of_index(actions@);
        }
        let mut remaining = actions;
        let mut parsed: Vec<(Ability, Vec<NotaBene>)> = Vec::new();
        proof {
            assert(spec_actions_of(parsed@) =~= Seq::<((Seq<char>, Seq<char>), Seq<SpecNb>)>::empty());
            assert(orig.take(0) =~= spec_actions_of(parsed@));
            assert(orig.skip(0) =~= spec_str_actions_of(remaining@));
        }
        while remaining.len() > 0
            invariant
                orig_vec == actions@,
                orig == spec_str_actions_of(orig_vec),
                parsed@.len() + remaining@.len() == orig_vec.len(),
                orig.len() == orig_vec.len(),
                spec_actions_of(parsed@) =~= orig.take(parsed@.len() as int),
                spec_str_actions_of(remaining@) =~= orig.skip(parsed@.len() as int),
                forall|k: int| 0 <= k < parsed@.len() ==> valid_action_text(
                    (#[trigger] orig_vec[k]).0@,
                ),
                forall|k: int| 0 <= k < remaining@.len() ==> #[trigger] remaining@[k]
                    == orig_vec[parsed@.len() + k],
            decreases remaining@.len(),
        {
            let ghost pre = remaining@;
            let ghost pk = parsed@.len() as int;
            let (action, nbs) = remaining.remove(0);
            proof {
                assert(remaining@ =~= pre.drop_first());
                lemma_spec_str_actions_of_index(pre);
                lemma_spec_str_actions_of_index(pre.drop_first());
                assert(spec_str_actions_of(pre.drop_first()) =~= spec_str_actions_of(
                    pre,
                ).drop_first()) by {
                    assert(forall|k: int|
                        0 <= k < pre.len() - 1 ==> #[trigger] pre.drop_first()[k] == pre[k + 1]);
                }
            }
            let a = match Ability::parse(action) {
                Ok(a) => a,
                Err(e) => {
                    proof {
                        assert(pre[0] == orig_vec[pk]);
                        assert(!valid_action_text(orig_vec[pk].0@));
                    }
                    return Err(ConvertError::InvalidAction(e));
                },
            };
            proof {
                lemma_spec_str_actions_of_index(orig_vec);
                assert(pre[0] == orig_vec[pk]);
                assert(valid_action_text(action@));
                assert(a@ == parsed_action(action@));
            }
            let ghost parsed_pre = parsed@;
            parsed.push((a, nbs));
            proof {
                lemma_spec_actions_of_index(parsed@);
                lemma_spec_actions_of_index(parsed_pre);
                assert(spec_actions_of(parsed@) =~= orig.take(parsed@.len() as int)) by {
                    assert(forall|k: int|
                        0 <= k < parsed_pre.len() ==> #[trigger] parsed@[k] == parsed_pre[k]);
                    assert(parsed@[pk] == (a, nbs));
                    assert(orig[pk] == (parsed_action(orig_vec[pk].0@), spec_nbs_of(
                        orig_vec[pk].1@,
                    )));
                }
                assert(spec_str_actions_of(remaining@) =~= orig.skip(parsed@.len() as int));
            }
        }
        proof {
            assert(spec_actions_of(parsed@) =~= orig);
            assert forall|k: int| 0 <= k < actions@.len() implies valid_action_text(
                (#[trigger] actions@[k]).0@,
            ) by {
                assert(orig_vec[k] == actions@[k]);
            }
        }
        self.with_actions(&t, parsed);
        Ok(())
    }

    /// The slots granted for one loosely-typed target.
    pub fn abilities_for(&self, target: &str) -> (r: Result<
        Option<&Vec<AbilityEntry>>,
        ConvertError,
    >)
        ensures
            !is_uri_text(target@) ==> r == Err::<Option<&Vec<AbilityEntry>>, ConvertError>(
                ConvertError::InvalidTarget,
            ),
            is_uri_text(target@) ==> (r matches Ok(o) && {
                &&& (o is Some <==> find_target(self@.atts, target@) is Some)
                &&& (o matches Some(v) ==> find_target(self@.atts, target@) matches Some(te)
                    && spec_slots_of(v@) == te.slots)
            }),
    {
        let t = match Target::parse(target) {
            Some(t) => t,
            None => {
                return Err(ConvertError::InvalidTarget);
            },
        };
        proof {
            lemma_spec_atts_of_index(self.attenuations@);
        }
        let n = self.attenuations.len();
        let mut i: usize = 0;
        loop
            invariant_except_break
                i <= n,
                n == self.attenuations@.len(),
                spec_atts_of(self.attenuations@).len() == n,
                forall|k: int| 0 <= k < n ==> #[trigger] spec_atts_of(
                    self.attenuations@,
                )[k] == self.attenuations@[k]@,
                self@.atts == spec_atts_of(self.attenuations@),
                forall|k: int| 0 <= k < i ==> (#[trigger] self@.atts[k]).target != t@,
            ensures
                i <= n,
                n == self.attenuations@.len(),
                forall|k: int| 0 <= k < n ==> #[trigger] spec_atts_of(
                    self.attenuations@,
                )[k] == self.attenuations@[k]@,
                self@.atts == spec_atts_of(self.attenuations@),
                forall|k: int| 0 <= k < i ==> (#[trigger] self@.atts[k]).target != t@,
                i < n ==> self@.atts[i as int].target == t@,
            decreases n - i,
        {
            if i == n {
                break;
            }
            if str_eq(self.attenuations[i].target.text.as_str(), t.text.as_str()) {
                break;
            }
            i = i + 1;
        }
        proof {
            lemma_find_target_skip(self@.atts, t@, i as int);
        }
        if i == n {
            proof {
                assert(self@.atts.skip(i as int).len() == 0);
            }
            Ok(None)
        } else {
            proof {
                assert(self@.atts.skip(i as int)[0] == self@.atts[i as int]);
            }
            Ok(Some(&self.attenuations[i].abilities))
        }
    }

    /// Surrenders the attenuations and the proofs.
    pub fn into_inner(self) -> (r: (Vec<TargetEntry>, Vec<ProofCid>))
        ensures
            spec_atts_of(r.0@) == self@.atts,
            spec_proofs_of(r.1@) == self@.proofs,
    {
        let Capability { attenuations, proofs } = self;
        (attenuations, proofs)
    }
}

impl Default for Capability {
    fn default() -> (r: Capability)
        ensures
            r@.atts == Seq::<SpecTargetEntry>::empty(),
            r@.proofs == Seq::<Seq<char>>::empty(),
    {
        Capability::new()
    }
}

// ---------------------------------------------------------------------------
// The canonical payload: the capability as a tagged value with two members,
// the attenuation map and the proof list.
// ---------------------------------------------------------------------------

pub open spec fn att_key() -> Seq<char> {
    seq!['a', 't', 't']
}

pub open spec fn prf_key() -> Seq<char> {
    seq!['p', 'r', 'f']
}

pub open spec fn nb_items_of(nbs: Seq<SpecNb>) -> Seq<SpecValue>
    decreases nbs.len(),
{
    if nbs.len() == 0 {
        Seq::empty()
    } else {
        seq![SpecValue::Obj(nbs[0])] + nb_items_of(nbs.drop_first())
    }
}

pub open spec fn slot_fields_of(slots: Seq<SpecSlot>) -> Seq<(Seq<char>, SpecValue)>
    decreases slots.len(),
{
    if slots.len() == 0 {
        Seq::empty()
    } else {
        seq![(ability_text(slots[0].ability), SpecValue::Arr(nb_items_of(slots[0].nbs)))]
            + slot_fields_of(slots.drop_first())
    }
}

pub open spec fn att_fields_of(atts: Seq<SpecTargetEntry>) -> Seq<(Seq<char>, SpecValue)>
    decreases atts.len(),
{
    if atts.len() == 0 {
        Seq::empty()
    } else {
        seq![(atts[0].target, SpecValue::Obj(slot_fields_of(atts[0].slots)))] + att_fields_of(
            atts.drop_first(),
        )
    }
}

pub open spec fn prf_items_of(ps: Seq<Seq<char>>) -> Seq<SpecValue>
    decreases ps.len(),
{
    if ps.len() == 0 {
        Seq::empty()
    } else {
        seq![SpecValue::Text(ps[0])] + prf_items_of(ps.drop_first())
    }
}

pub open spec fn payload_of(c: SpecCapability) -> SpecValue {
    SpecValue::Obj(
        seq![
            (att_key(), SpecValue::Obj(att_fields_of(c.atts))),
            (prf_key(), SpecValue::Arr(prf_items_of(c.proofs))),
        ],
    )
}

pub proof fn lemma_nb_items_of_index(nbs: Seq<SpecNb>)
    ensures
        nb_items_of(nbs).len() == nbs.len(),
        forall|i: int| 0 <= i < nbs.len() ==> #[trigger] nb_items_of(nbs)[i] == SpecValue::Obj(
            nbs[i],
        ),
    decreases nbs.len(),
{
    if nbs.len() > 0 {
        lemma_nb_items_of_index(nbs.drop_first());
        assert(forall|i: int|
            0 <= i < nbs.len() - 1 ==> #[trigger] nbs.drop_first()[i] == nbs[i + 1]);
    }
}

pub proof fn lemma_slot_fields_of_index(slots: Seq<SpecSlot>)
    ensures
        slot_fields_of(slots).len() == slots.len(),
        forall|i: int| 0 <= i < slots.len() ==> #[trigger] slot_fields_of(slots)[i] == (
            ability_text(slots[i].ability),
            SpecValue::Arr(nb_items_of(slots[i].nbs)),
        ),
    decreases slots.len(),
{
    if slots.len() > 0 {
        lemma_slot_fields_of_index(slots.drop_first());
        assert(forall|i: int|
            0 <= i < slots.len() - 1 ==> #[trigger] slots.drop_first()[i] == slots[i + 1]);
    }
}

pub proof fn lemma_att_fields_of_index(atts: Seq<SpecTargetEntry>)
    ensures
        att_fields_of(atts).len() == atts.len(),
        forall|i: int| 0 <= i < atts.len() ==> #[trigger] att_fields_of(atts)[i] == (
            atts[i].target,
            SpecValue::Obj(slot_fields_of(atts[i].slots)),
        ),
    decreases atts.len(),
{
    if atts.len() > 0 {
        lemma_att_fields_of_index(atts.drop_first());
        assert(forall|i: int|
            0 <= i < atts.len() - 1 ==> #[trigger] atts.drop_first()[i] == atts[i + 1]);
    }
}

pub proof fn lemma_prf_items_of_index(ps: Seq<Seq<char>>)
    ensures
        prf_items_of(ps).len() == ps.len(),
        forall|i: int| 0 <= i < ps.len() ==> #[trigger] prf_items_of(ps)[i] == SpecValue::Text(
            ps[i],
        ),
    decreases ps.len(),
{
    if ps.len() > 0 {
        lemma_prf_items_of_index(ps.drop_first());
        assert(forall|i: int|
            0 <= i < ps.len() - 1 ==> #[trigger] ps.drop_first()[i] == ps[i + 1]);
    }
}

// A well-formed capability renders to a canonical value.
pub proof fn lemma_payload_wf(c: SpecCapability)
    requires
        spec_cap_wf(c),
    ensures
        spec_value_wf(payload_of(c)),
{
    lemma_att_fields_of_index(c.atts);
    lemma_prf_items_of_index(c.proofs);
    // the attenuation member
    assert forall|i: int| 0 <= i < att_fields_of(c.atts).len() implies spec_value_wf(
        (#[trigger] att_fields_of(c.atts)[i]).1,
    ) by {
        let slots = c.atts[i].slots;
        lemma_slot_fields_of_index(slots);
        assert(target_entry_wf(c.atts[i]));
        assert forall|q: int| 0 <= q < slot_fields_of(slots).len() implies spec_value_wf(
            (#[trigger] slot_fields_of(slots)[q]).1,
        ) by {
            lemma_nb_items_of_index(slots[q].nbs);
            assert(slot_wf(slots[q]));
            assert forall|w: int| 0 <= w < nb_items_of(slots[q].nbs).len() implies spec_value_wf(
                #[trigger] nb_items_of(slots[q].nbs)[w],
            ) by {
                assert(nb_items_of(slots[q].nbs)[w] == SpecValue::Obj(slots[q].nbs[w]));
            }
            crate::value::lemma_wf_arr_intro(nb_items_of(slots[q].nbs));
        }
        assert forall|q1: int, q2: int|
            0 <= q1 < q2 < slot_fields_of(slots).len() implies chars_lt(
            (#[trigger] slot_fields_of(slots)[q1]).0,
            (#[trigger] slot_fields_of(slots)[q2]).0,
        ) by {
            assert(ability_lt(slots[q1].ability, slots[q2].ability));
        }
        crate::value::lemma_wf_obj_intro(slot_fields_of(slots));
    }
    assert forall|i: int, j: int|
        0 <= i < j < att_fields_of(c.atts).len() implies chars_lt(
        (#[trigger] att_fields_of(c.atts)[i]).0,
        (#[trigger] att_fields_of(c.atts)[j]).0,
    ) by {
        assert(chars_lt(c.atts[i].target, c.atts[j].target));
    }
    crate::value::lemma_wf_obj_intro(att_fields_of(c.atts));
    // the proof member
    assert forall|i: int| 0 <= i < prf_items_of(c.proofs).len() implies spec_value_wf(
        #[trigger] prf_items_of(c.proofs)[i],
    ) by {
        assert(prf_items_of(c.proofs)[i] == SpecValue::Text(c.proofs[i]));
    }
    crate::value::lemma_wf_arr_intro(prf_items_of(c.proofs));
    // the two members in order
    let fields = payload_of(c)->Obj_0;
    assert(fields[0].0 == att_key());
    assert(fields[1].0 == prf_key());
    assert(chars_lt(att_key(), prf_key())) by {
        assert(att_key()[0] == 'a');
        assert(prf_key()[0] == 'p');
        assert(('a' as u32) < ('p' as u32));
    }
    assert forall|i: int, j: int| 0 <= i < j < fields.len() implies chars_lt(
        (#[trigger] fields[i]).0,
        (#[trigger] fields[j]).0,
    ) by {
        assert(i == 0 && j == 1);
    }
    assert forall|i: int| 0 <= i < fields.len() implies spec_value_wf(
        (#[trigger] fields[i]).1,
    ) by {}
    crate::value::lemma_wf_obj_intro(fields);
}

// The record of one nota bene, as a tagged value.
fn nb_to_value(nb: &NotaBene) -> (r: Value)
    ensures
        r@ == SpecValue::Obj(nb@),
{
    proof {
        crate::value::lemma_spec_fields_of_index(nb.fields@);
    }
    let n = nb.fields.len();
    let mut out: Vec<(String, Value)> = Vec::new();
    while out.len() < n
        invariant
            out@.len() <= n,
            n == nb.fields@.len(),
            spec_fields_of(nb.fields@).len() == n,
            forall|k: int| 0 <= k < n ==> #[trigger] spec_fields_of(nb.fields@)[k] == (
                nb.fields@[k].0@,
                crate::value::spec_value_of(nb.fields@[k].1),
            ),
            spec_fields_of(out@).len() == out@.len(),
            forall|k: int| 0 <= k < out@.len() ==> #[trigger] spec_fields_of(out@)[k]
                == spec_fields_of(nb.fields@)[k],
        decreases n - out@.len(),
    {
        let j = out.len();
        let ghost pre = out@;
        let key = nb.fields[j].0.clone();
        let val = crate::value::clone_value(&nb.fields[j].1);
        out.push((key, val));
        proof {
            crate::value::lemma_spec_fields_of_index(out@);
            crate::value::lemma_spec_fields_of_index(pre);
            assert(out@[j as int] == (key, val));
            assert forall|k: int| 0 <= k < out@.len() implies #[trigger] spec_fields_of(
                out@,
            )[k] == spec_fields_of(nb.fields@)[k] by {
                if k < j {
                    assert(out@[k] == pre[k]);
                    assert(spec_fields_of(pre)[k] == (pre[k].0@, crate::value::spec_value_of(
                        pre[k].1,
                    )));
                }
            }
        }
    }
    proof {
        assert(spec_fields_of(out@) =~= spec_fields_of(nb.fields@));
    }
    Value::Obj(out)
}

impl Capability {
    // The capability rendered as its canonical payload value.
    fn payload_value(&self) -> (r: Value)
        ensures
            r@ == payload_of(self@),
    {
        proof {
            lemma_spec_atts_of_index(self.attenuations@);
            lemma_att_fields_of_index(self@.atts);
        }
        let n = self.attenuations.len();
        let mut att_fields: Vec<(String, Value)> = Vec::new();
        while att_fields.len() < n
            invariant
                att_fields@.len() <= n,
                n == self.attenuations@.len(),
                spec_atts_of(self.attenuations@).len() == n,
                forall|k: int| 0 <= k < n ==> #[trigger] spec_atts_of(
                    self.attenuations@,
                )[k] == self.attenuations@[k]@,
                self@.atts == spec_atts_of(self.attenuations@),
                att_fields_of(self@.atts).len() == n,
                forall|k: int| 0 <= k < n ==> #[trigger] att_fields_of(self@.atts)[k] == (
                    self@.atts[k].target,
                    SpecValue::Obj(slot_fields_of(self@.atts[k].slots)),
                ),
                spec_fields_of(att_fields@).len() == att_fields@.len(),
                forall|k: int| 0 <= k < att_fields@.len() ==> #[trigger] spec_fields_of(
                    att_fields@,
                )[k] == att_fields_of(self@.atts)[k],
            decreases n - att_fields@.len(),
        {
            let i = att_fields.len();
            let te = &self.attenuations[i];
            proof {
                lemma_spec_slots_of_index(te.abilities@);
                lemma_slot_fields_of_index(te@.slots);
            }
            let m = te.abilities.len();
            let mut slot_fields: Vec<(String, Value)> = Vec::new();
            while slot_fields.len() < m
                invariant
                    slot_fields@.len() <= m,
                    m == te.abilities@.len(),
                    spec_slots_of(te.abilities@).len() == m,
                    forall|k: int| 0 <= k < m ==> #[trigger] spec_slots_of(
                        te.abilities@,
                    )[k] == te.abilities@[k]@,
                    te@.slots == spec_slots_of(te.abilities@),
                    slot_fields_of(te@.slots).len() == m,
                    forall|k: int| 0 <= k < m ==> #[trigger] slot_fields_of(te@.slots)[k] == (
                        ability_text(te@.slots[k].ability),
                        SpecValue::Arr(nb_items_of(te@.slots[k].nbs)),
                    ),
                    spec_fields_of(slot_fields@).len() == slot_fields@.len(),
                    forall|k: int| 0 <= k < slot_fields@.len() ==> #[trigger] spec_fields_of(
                        slot_fields@,
                    )[k] == slot_fields_of(te@.slots)[k],
                decreases m - slot_fields@.len(),
            {
                let q = slot_fields.len();
                let ae = &te.abilities[q];
                proof {
                    lemma_spec_nbs_of_index(ae.nota_benes@);
                    lemma_nb_items_of_index(ae@.nbs);
                }
                let w = ae.nota_benes.len();
                let mut items: Vec<Value> = Vec::new();
                while items.len() < w
                    invariant
                        items@.len() <= w,
                        w == ae.nota_benes@.len(),
                        spec_nbs_of(ae.nota_benes@).len() == w,
                        forall|k: int| 0 <= k < w ==> #[trigger] spec_nbs_of(
                            ae.nota_benes@,
                        )[k] == ae.nota_benes@[k]@,
                        ae@.nbs == spec_nbs_of(ae.nota_benes@),
                        nb_items_of(ae@.nbs).len() == w,
                        forall|k: int| 0 <= k < w ==> #[trigger] nb_items_of(ae@.nbs)[k]
                            == SpecValue::Obj(ae@.nbs[k]),
                        crate::value::spec_values_of(items@).len() == items@.len(),
                        forall|k: int| 0 <= k < items@.len() ==> #[trigger]
                            crate::value::spec_values_of(items@)[k] == nb_items_of(ae@.nbs)[k],
                    decreases w - items@.len(),
                {
                    let z = items.len();
                    let ghost pre = items@;
                    let item = nb_to_value(&ae.nota_benes[z]);
                    items.push(item);
                    proof {
                        crate::value::lemma_spec_values_of_index(items@);
                        crate::value::lemma_spec_values_of_index(pre);
                        assert(items@[z as int] == item);
                        assert forall|k: int| 0 <= k < items@.len() implies #[trigger]
                            crate::value::spec_values_of(items@)[k] == nb_items_of(
                            ae@.nbs,
                        )[k] by {
                            if k < z {
                                assert(items@[k] == pre[k]);
                                assert(crate::value::spec_values_of(pre)[k]
                                    == crate::value::spec_value_of(pre[k]));
                            }
                        }
                    }
                }
                let ghost spre = slot_fields@;
                let key = ae.ability.to_text();
                slot_fields.push((key, Value::Arr(items)));
                proof {
                    crate::value::lemma_spec_fields_of_index(slot_fields@);
                    crate::value::lemma_spec_fields_of_index(spre);
                    assert(crate::value::spec_values_of(slot_fields@[q as int].1->Arr_0@)
                        =~= nb_items_of(ae@.nbs));
                    assert forall|k: int| 0 <= k < slot_fields@.len() implies #[trigger]
                        spec_fields_of(slot_fields@)[k] == slot_fields_of(te@.slots)[k] by {
                        if k < q {
                            assert(slot_fields@[k] == spre[k]);
                            assert(spec_fields_of(spre)[k] == (spre[k].0@,
                                crate::value::spec_value_of(spre[k].1)));
                        }
                    }
                }
            }
            let ghost apre = att_fields@;
            let tkey = te.target.text.clone();
            att_fields.push((tkey, Value::Obj(slot_fields)));
            proof {
                crate::value::lemma_spec_fields_of_index(att_fields@);
                crate::value::lemma_spec_fields_of_index(apre);
                assert(spec_fields_of(att_fields@[i as int].1->Obj_0@) =~= slot_fields_of(
                    te@.slots,
                ));
                assert forall|k: int| 0 <= k < att_fields@.len() implies #[trigger]
                    spec_fields_of(att_fields@)[k] == att_fields_of(self@.atts)[k] by {
                    if k < i {
                        assert(att_fields@[k] == apre[k]);
                        assert(spec_fields_of(apre)[k] == (apre[k].0@,
                            crate::value::spec_value_of(apre[k].1)));
                    }
                }
            }
        }
        proof {
            lemma_spec_proofs_of_index(self.proofs@);
            lemma_prf_items_of_index(self@.proofs);
        }
        let pn = self.proofs.len();
        let mut prf_items: Vec<Value> = Vec::new();
        while prf_items.len() < pn
            invariant
                prf_items@.len() <= pn,
                pn == self.proofs@.len(),
                spec_proofs_of(self.proofs@).len() == pn,
                forall|k: int| 0 <= k < pn ==> #[trigger] spec_proofs_of(
                    self.proofs@,
                )[k] == self.proofs@[k]@,
                self@.proofs == spec_proofs_of(self.proofs@),
                prf_items_of(self@.proofs).len() == pn,
                forall|k: int| 0 <= k < pn ==> #[trigger] prf_items_of(self@.proofs)[k]
                    == SpecValue::Text(self@.proofs[k]),
                crate::value::spec_values_of(prf_items@).len() == prf_items@.len(),
                forall|k: int| 0 <= k < prf_items@.len() ==> #[trigger]
                    crate::value::spec_values_of(prf_items@)[k] == prf_items_of(self@.proofs)[k],
            decreases pn - prf_items@.len(),
        {
            let z = prf_items.len();
            let ghost pre = prf_items@;
            let item = Value::Text(self.proofs[z].text.clone());
            prf_items.push(item);
            proof {
                crate::value::lemma_spec_values_of_index(prf_items@);
                crate::value::lemma_spec_values_of_index(pre);
                assert(prf_items@[z as int] == item);
                assert forall|k: int| 0 <= k < prf_items@.len() implies #[trigger]
                    crate::value::spec_values_of(prf_items@)[k] == prf_items_of(
                    self@.proofs,
                )[k] by {
                    if k < z {
                        assert(prf_items@[k] == pre[k]);
                        assert(crate::value::spec_values_of(pre)[k]
                            == crate::value::spec_value_of(pre[k]));
                    }
                }
            }
        }
        let att_name = "att";
        let prf_name = "prf";
        proof {
            reveal_strlit("att");
            reveal_strlit("prf");
            assert(att_name@ =~= att_key());
            assert(prf_name@ =~= prf_key());
        }
        let mut fields: Vec<(String, Value)> = Vec::new();
        fields.push((String::from_str(att_name), Value::Obj(att_fields)));
        fields.push((String::from_str(prf_name), Value::Arr(prf_items)));
        let out = Value::Obj(fields);
        proof {
            crate::value::lemma_spec_fields_of_index(fields@);
            assert(spec_fields_of(att_fields@) =~= att_fields_of(self@.atts));
            assert(crate::value::spec_values_of(prf_items@) =~= prf_items_of(self@.proofs));
            assert(spec_fields_of(fields@) =~= payload_of(self@)->Obj_0);
        }
        out
    }

    /// The capability in its transport form: the canonical text of its
    /// payload, base64-encoded without padding.
    pub fn encode(&self) -> (r: String)
        ensures
            r@ == crate::outside::b64_of(jcs_value(payload_of(self@))),
    {
        let v = self.payload_value();
        let text = crate::codec::value_to_text(&v);
        crate::outside::b64_encode(text.as_str())
    }
}

// Reads nota bene records back out of the items of a rendered slot.
#[verifier::loop_isolation(false)]
fn items_to_nbs(items: Vec<Value>) -> (r: Result<Vec<NotaBene>, ()>)
    requires
        spec_value_wf(SpecValue::Arr(crate::value::spec_values_of(items@))),
    ensures
        r matches Ok(nbs) ==> nb_items_of(spec_nbs_of(nbs@)) == crate::value::spec_values_of(
            items@,
        ),
        forall|ns: Seq<SpecNb>|
            crate::value::spec_values_of(items@) == #[trigger] nb_items_of(ns) ==> r is Ok,
{
    let ghost items0 = crate::value::spec_values_of(items@);
    let ghost items_vec0 = items@;
    proof {
        crate::value::lemma_spec_values_of_index(items@);
    }
    let mut remaining = items;
    let mut out: Vec<NotaBene> = Vec::new();
    while remaining.len() > 0
        invariant
            out@.len() + remaining@.len() == items_vec0.len(),
            items0.len() == items_vec0.len(),
            forall|k: int| 0 <= k < remaining@.len() ==> #[trigger] remaining@[k]
                == items_vec0[out@.len() + k],
            spec_nbs_of(out@).len() == out@.len(),
            forall|k: int| 0 <= k < out@.len() ==> nb_items_of(spec_nbs_of(out@))[k]
                == #[trigger] items0[k],
            nb_items_of(spec_nbs_of(out@)).len() == out@.len(),
        decreases remaining@.len(),
    {
        let ghost idx = out@.len() as int;
        let ghost pre = remaining@;
        let item = remaining.remove(0);
        proof {
            assert(remaining@ =~= pre.drop_first());
            assert(item == items_vec0[idx]);
            crate::value::lemma_spec_values_of_index(items_vec0);
            assert(item@ == items0[idx]);
            crate::value::lemma_wf_arr_elem(items0, idx);
        }
        match item {
            Value::Obj(nbf) => {
                let ghost opre = out@;
                let nb = NotaBene { fields: nbf };
                out.push(nb);
                proof {
                    lemma_spec_nbs_of_index(out@);
                    lemma_spec_nbs_of_index(opre);
                    lemma_nb_items_of_index(spec_nbs_of(out@));
                    lemma_nb_items_of_index(spec_nbs_of(opre));
                    assert(out@[idx] == nb);
                    assert forall|k: int| 0 <= k < out@.len() implies nb_items_of(
                        spec_nbs_of(out@),
                    )[k] == #[trigger] items0[k] by {
                        if k < idx {
                            assert(out@[k] == opre[k]);
                            assert(spec_nbs_of(opre)[k] == opre[k]@);
                        } else {
                            assert(spec_nbs_of(out@)[idx] == nb@);
                        }
                    }
                }
            },
            other => {
                proof {
                    assert forall|ns: Seq<SpecNb>|
                        crate::value::spec_values_of(items@) == #[trigger] nb_items_of(
                            ns,
                        ) implies false by {
                        lemma_nb_items_of_index(ns);
                        assert(items0[idx] == SpecValue::Obj(ns[idx]));
                        assert(other@ == items0[idx]);
                    }
                }
                return Err(());
            },
        }
    }
    proof {
        assert(nb_items_of(spec_nbs_of(out@)) =~= items0);
    }
    Ok(out)
}

// Reads the slots of one target back out of a rendered attenuation member.
#[verifier::loop_isolation(false)]
#[verifier::rlimit(40)]
fn fields_to_slots(sfields: Vec<(String, Value)>) -> (r: Result<Vec<AbilityEntry>, ()>)
    requires
        spec_value_wf(SpecValue::Obj(spec_fields_of(sfields@))),
    ensures
        r matches Ok(slots) ==> slot_fields_of(spec_slots_of(slots@)) == spec_fields_of(
            sfields@,
        ) && slots_wf(spec_slots_of(slots@)),
        forall|ss: Seq<SpecSlot>|
            slots_wf(ss) && spec_fields_of(sfields@) == #[trigger] slot_fields_of(ss) ==> r
                is Ok,
{
    let ghost sf0 = spec_fields_of(sfields@);
    let ghost sf_vec0 = sfields@;
    proof {
        crate::value::lemma_spec_fields_of_index(sfields@);
    }
    let mut remaining = sfields;
    let mut out: Vec<AbilityEntry> = Vec::new();
    while remaining.len() > 0
        invariant
            out@.len() + remaining@.len() == sf_vec0.len(),
            sf0.len() == sf_vec0.len(),
            sf0 == spec_fields_of(sf_vec0),
            spec_value_wf(SpecValue::Obj(sf0)),
            forall|k: int| 0 <= k < remaining@.len() ==> #[trigger] remaining@[k]
                == sf_vec0[out@.len() + k],
            spec_slots_of(out@).len() == out@.len(),
            slot_fields_of(spec_slots_of(out@)).len() == out@.len(),
            forall|k: int| 0 <= k < out@.len() ==> slot_fields_of(spec_slots_of(out@))[k]
                == #[trigger] sf0[k],
            forall|k: int| 0 <= k < out@.len() ==> slot_wf(
                #[trigger] spec_slots_of(out@)[k],
            ),
        decreases remaining@.len(),
    {
        let ghost idx = out@.len() as int;
        let ghost pre = remaining@;
        let (skey, sval) = remaining.remove(0);
        proof {
            assert(remaining@ =~= pre.drop_first());
            assert((skey, sval) == sf_vec0[idx]);
            crate::value::lemma_spec_fields_of_index(sf_vec0);
            assert(sf0[idx] == (skey@, sval@));
            crate::value::lemma_wf_obj_field(sf0, idx);
        }
        let ability = match Ability::parse(skey.as_str()) {
            Ok(a) => a,
            Err(_) => {
                proof {
                    assert forall|ss: Seq<SpecSlot>|
                        slots_wf(ss) && spec_fields_of(sfields@) == #[trigger] slot_fields_of(
                            ss,
                        ) implies false by {
                        lemma_slot_fields_of_index(ss);
                        assert(sf0[idx] == (ability_text(ss[idx].ability), SpecValue::Arr(
                            nb_items_of(ss[idx].nbs),
                        )));
                        assert(slot_wf(ss[idx]));
                        crate::ability::lemma_ability_text_parse(ss[idx].ability);
                        crate::ability::lemma_find_char_props(skey@, '/');
                    }
                }
                return Err(());
            },
        };
        proof {
            crate::ability::lemma_find_char_props(skey@, '/');
            let i = crate::ability::find_char(skey@, '/')->Some_0;
            crate::ability::lemma_ability_text_reassemble(skey@, i);
            assert(ability_text(ability@) == skey@);
        }
        let items = match sval {
            Value::Arr(items) => items,
            other => {
                proof {
                    assert forall|ss: Seq<SpecSlot>|
                        slots_wf(ss) && spec_fields_of(sfields@) == #[trigger] slot_fields_of(
                            ss,
                        ) implies false by {
                        lemma_slot_fields_of_index(ss);
                        assert(sf0[idx] == (ability_text(ss[idx].ability), SpecValue::Arr(
                            nb_items_of(ss[idx].nbs),
                        )));
                        assert(other@ == sf0[idx].1);
                    }
                }
                return Err(());
            },
        };
        proof {
            assert(SpecValue::Arr(crate::value::spec_values_of(items@)) == sf0[idx].1);
        }
        let nota_benes = match items_to_nbs(items) {
            Ok(nbs) => nbs,
            Err(_) => {
                proof {
                    assert forall|ss: Seq<SpecSlot>|
                        slots_wf(ss) && spec_fields_of(sfields@) == #[trigger] slot_fields_of(
                            ss,
                        ) implies false by {
                        lemma_slot_fields_of_index(ss);
                        assert(sf0[idx] == (ability_text(ss[idx].ability), SpecValue::Arr(
                            nb_items_of(ss[idx].nbs),
                        )));
                    }
                }
                return Err(());
            },
        };
        let ghost opre = out@;
        out.push(AbilityEntry { ability, nota_benes });
        proof {
            lemma_spec_slots_of_index(out@);
            lemma_spec_slots_of_index(opre);
            lemma_slot_fields_of_index(spec_slots_of(out@));
            lemma_slot_fields_of_index(spec_slots_of(opre));
            assert(spec_slots_of(out@)[idx].nbs == spec_nbs_of(nota_benes@));
            assert(nb_items_of(spec_nbs_of(nota_benes@)) == crate::value::spec_values_of(
                items@,
            ));
            assert forall|k: int| 0 <= k < out@.len() implies slot_fields_of(
                spec_slots_of(out@),
            )[k] == #[trigger] sf0[k] by {
                if k < idx {
                    assert(out@[k] == opre[k]);
                    assert(spec_slots_of(opre)[k] == opre[k]@);
                } else {
                    assert(slot_fields_of(spec_slots_of(out@))[idx] == (
                        ability_text(spec_slots_of(out@)[idx].ability),
                        SpecValue::Arr(nb_items_of(spec_slots_of(out@)[idx].nbs)),
                    ));
                }
            }
            // the new slot is well formed
            assert(slot_wf(spec_slots_of(out@)[idx])) by {
                assert(spec_value_wf(sf0[idx].1));
                let ws = crate::value::spec_values_of(items@);
                assert forall|w: int|
                    0 <= w < spec_nbs_of(nota_benes@).len() implies spec_value_wf(
                    SpecValue::Obj(#[trigger] spec_nbs_of(nota_benes@)[w]),
                ) by {
                    lemma_nb_items_of_index(spec_nbs_of(nota_benes@));
                    assert(nb_items_of(spec_nbs_of(nota_benes@))[w] == ws[w]);
                    crate::value::lemma_wf_arr_elem(ws, w);
                }
            }
            assert forall|k: int| 0 <= k < out@.len() implies slot_wf(
                #[trigger] spec_slots_of(out@)[k],
            ) by {
                if k < idx {
                    assert(out@[k] == opre[k]);
                    assert(spec_slots_of(opre)[k] == opre[k]@);
                }
            }
        }
    }
    proof {
        assert(slot_fields_of(spec_slots_of(out@)) =~= sf0);
        // key order carries over to the ability order
        assert forall|q1: int, q2: int|
            0 <= q1 < q2 < spec_slots_of(out@).len() implies ability_lt(
            (#[trigger] spec_slots_of(out@)[q1]).ability,
            (#[trigger] spec_slots_of(out@)[q2]).ability,
        ) by {
            lemma_slot_fields_of_index(spec_slots_of(out@));
            crate::value::lemma_wf_obj_sorted(sf0, q1, q2);
            assert(sf0[q1].0 == ability_text(spec_slots_of(out@)[q1].ability));
            assert(sf0[q2].0 == ability_text(spec_slots_of(out@)[q2].ability));
        }
    }
    Ok(out)
}

// Reads the proof references back out of a rendered proof list.
#[verifier::loop_isolation(false)]
#[verifier::rlimit(40)]
fn items_to_proofs(items: Vec<Value>) -> (r: Result<Vec<ProofCid>, ()>)
    ensures
        r matches Ok(ps) ==> {
            &&& prf_items_of(spec_proofs_of(ps@)) == crate::value::spec_values_of(items@)
            &&& forall|k: int| 0 <= k < spec_proofs_of(ps@).len() ==> proof_text_wf(
                #[trigger] spec_proofs_of(ps@)[k],
            )
            &&& forall|q1: int, q2: int|
                0 <= q1 < q2 < spec_proofs_of(ps@).len() ==> chars_lt(
                    #[trigger] spec_proofs_of(ps@)[q1],
                    #[trigger] spec_proofs_of(ps@)[q2],
                )
        },
        forall|pp: Seq<Seq<char>>|
            crate::value::spec_values_of(items@) == #[trigger] prf_items_of(pp) && (forall|k: int|
                0 <= k < pp.len() ==> proof_text_wf(#[trigger] pp[k])) && (forall|
                q1: int,
                q2: int,
            |
                0 <= q1 < q2 < pp.len() ==> chars_lt(#[trigger] pp[q1], #[trigger] pp[q2]))
                ==> r is Ok,
{
    let ghost items0 = crate::value::spec_values_of(items@);
    let ghost items_vec0 = items@;
    proof {
        crate::value::lemma_spec_values_of_index(items@);
    }
    let mut remaining = items;
    let mut out: Vec<ProofCid> = Vec::new();
    while remaining.len() > 0
        invariant
            out@.len() + remaining@.len() == items_vec0.len(),
            items0.len() == items_vec0.len(),
            items0 == crate::value::spec_values_of(items_vec0),
            forall|k: int| 0 <= k < remaining@.len() ==> #[trigger] remaining@[k]
                == items_vec0[out@.len() + k],
            spec_proofs_of(out@).len() == out@.len(),
            forall|k: int| 0 <= k < out@.len() ==> prf_items_of(spec_proofs_of(out@))[k]
                == #[trigger] items0[k],
            prf_items_of(spec_proofs_of(out@)).len() == out@.len(),
            forall|k: int| 0 <= k < out@.len() - 1 ==> chars_lt(
                #[trigger] spec_proofs_of(out@)[k],
                spec_proofs_of(out@)[k + 1],
            ),
            forall|k: int| 0 <= k < out@.len() ==> proof_text_wf(
                #[trigger] spec_proofs_of(out@)[k],
            ),
        decreases remaining@.len(),
    {
        let ghost idx = out@.len() as int;
        let ghost pre = remaining@;
        let item = remaining.remove(0);
        proof {
            assert(remaining@ =~= pre.drop_first());
            assert(item == items_vec0[idx]);
            crate::value::lemma_spec_values_of_index(items_vec0);
            assert(item@ == items0[idx]);
        }
        let text = match item {
            Value::Text(t) => t,
            other => {
                proof {
                    assert forall|pp: Seq<Seq<char>>|
                        crate::value::spec_values_of(items@) == #[trigger] prf_items_of(pp)
                            && (forall|k: int| 0 <= k < pp.len() ==> proof_text_wf(
                            #[trigger] pp[k],
                        )) && (forall|q1: int, q2: int|
                            0 <= q1 < q2 < pp.len() ==> chars_lt(
                                #[trigger] pp[q1],
                                #[trigger] pp[q2],
                            )) implies false by {
                        lemma_prf_items_of_index(pp);
                        assert(items0[idx] == SpecValue::Text(pp[idx]));
                        assert(other@ == items0[idx]);
                    }
                }
                return Err(());
            },
        };
        let ok = {
            let n = text.as_str().unicode_len();
            if n == 0 {
                false
            } else if text.as_str().get_char(0) != 'z' {
                false
            } else {
                cid_ok(text.as_str())
            }
        };
        let sorted_ok = if out.len() > 0 {
            str_lt(out[out.len() - 1].text.as_str(), text.as_str())
        } else {
            true
        };
        if !ok || !sorted_ok {
            proof {
                assert forall|pp: Seq<Seq<char>>|
                    crate::value::spec_values_of(items@) == #[trigger] prf_items_of(pp) && (
                    forall|k: int| 0 <= k < pp.len() ==> proof_text_wf(#[trigger] pp[k])) && (
                    forall|q1: int, q2: int|
                        0 <= q1 < q2 < pp.len() ==> chars_lt(
                            #[trigger] pp[q1],
                            #[trigger] pp[q2],
                        )) implies false by {
                    lemma_prf_items_of_index(pp);
                    lemma_spec_proofs_of_index(out@);
                    lemma_prf_items_of_index(spec_proofs_of(out@));
                    assert(items0[idx] == SpecValue::Text(pp[idx]));
                    assert(text@ == pp[idx]);
                    assert(proof_text_wf(pp[idx]));
                    if idx > 0 {
                        assert(prf_items_of(spec_proofs_of(out@))[idx - 1] == items0[idx - 1]);
                        assert(items0[idx - 1] == SpecValue::Text(pp[idx - 1]));
                        assert(spec_proofs_of(out@)[idx - 1] == pp[idx - 1]);
                        assert(out@[idx - 1]@ == pp[idx - 1]);
                        assert(chars_lt(pp[idx - 1], pp[idx]));
                    }
                }
            }
            return Err(());
        }
        let ghost opre = out@;
        out.push(ProofCid { text });
        proof {
            lemma_spec_proofs_of_index(out@);
            lemma_spec_proofs_of_index(opre);
            lemma_prf_items_of_index(spec_proofs_of(out@));
            lemma_prf_items_of_index(spec_proofs_of(opre));
            assert forall|k: int| 0 <= k < out@.len() implies prf_items_of(
                spec_proofs_of(out@),
            )[k] == #[trigger] items0[k] by {
                if k < idx {
                    assert(out@[k] == opre[k]);
                    assert(spec_proofs_of(opre)[k] == opre[k]@);
                }
            }
            assert forall|k: int| 0 <= k < out@.len() - 1 implies chars_lt(
                #[trigger] spec_proofs_of(out@)[k],
                spec_proofs_of(out@)[k + 1],
            ) by {
                if k + 1 < idx {
                    assert(out@[k] == opre[k]);
                    assert(out@[k + 1] == opre[k + 1]);
                    assert(spec_proofs_of(opre)[k] == opre[k]@);
                    assert(spec_proofs_of(opre)[k + 1] == opre[k + 1]@);
                } else {
                    assert(out@[k] == opre[k]);
                    assert(spec_proofs_of(opre)[k] == opre[k]@);
                }
            }
            assert forall|k: int| 0 <= k < out@.len() implies proof_text_wf(
                #[trigger] spec_proofs_of(out@)[k],
            ) by {
                if k < idx {
                    assert(out@[k] == opre[k]);
                    assert(spec_proofs_of(opre)[k] == opre[k]@);
                }
            }
        }
    }
    proof {
        assert(prf_items_of(spec_proofs_of(out@)) =~= items0);
        lemma_adjacent_sorted_texts(spec_proofs_of(out@));
    }
    Ok(out)
}

// ---------------------------------------------------------------------------
// What merging means, slot by slot.
// ---------------------------------------------------------------------------

// The constraint records at one slot, an absent slot carrying none.
pub open spec fn slot_records(c: SpecCapability, t: Seq<char>, a: (Seq<char>, Seq<char>)) -> Seq<
    SpecNb,
> {
    match slot_nbs(c, t, a) {
        Some(s) => s,
        None => Seq::empty(),
    }
}

pub open spec fn list_slot_records(slots: Seq<SpecSlot>, a: (Seq<char>, Seq<char>)) -> Seq<
    SpecNb,
> {
    match find_slot(slots, a) {
        Some(sl) => sl.nbs,
        None => Seq::empty(),
    }
}

// In every sorted list there is a first position not below the key.
proof fn lemma_scan_position_targets(atts: Seq<SpecTargetEntry>, t: Seq<char>) -> (j: int)
    ensures
        0 <= j <= atts.len(),
        forall|q: int| 0 <= q < j ==> chars_lt((#[trigger] atts[q]).target, t),
        j < atts.len() ==> !chars_lt(atts[j as int].target, t),
    decreases atts.len(),
{
    if atts.len() == 0 {
        0
    } else if chars_lt(atts[0].target, t) {
        let rest = atts.drop_first();
        assert(forall|q: int| 0 <= q < atts.len() - 1 ==> #[trigger] rest[q] == atts[q + 1]);
        let j2 = lemma_scan_position_targets(rest, t);
        assert forall|q: int| 0 <= q < j2 + 1 implies chars_lt(
            (#[trigger] atts[q]).target,
            t,
        ) by {
            if q >= 1 {
                assert(rest[q - 1] == atts[q]);
            }
        }
        j2 + 1
    } else {
        0
    }
}

proof fn lemma_scan_position_slots(slots: Seq<SpecSlot>, a: (Seq<char>, Seq<char>)) -> (j: int)
    ensures
        0 <= j <= slots.len(),
        forall|q: int| 0 <= q < j ==> ability_lt((#[trigger] slots[q]).ability, a),
        j < slots.len() ==> !ability_lt(slots[j as int].ability, a),
    decreases slots.len(),
{
    if slots.len() == 0 {
        0
    } else if ability_lt(slots[0].ability, a) {
        let rest = slots.drop_first();
        assert(forall|q: int| 0 <= q < slots.len() - 1 ==> #[trigger] rest[q] == slots[q + 1]);
        let j2 = lemma_scan_position_slots(rest, a);
        assert forall|q: int| 0 <= q < j2 + 1 implies ability_lt(
            (#[trigger] slots[q]).ability,
            a,
        ) by {
            if q >= 1 {
                assert(rest[q - 1] == slots[q]);
            }
        }
        j2 + 1
    } else {
        0
    }
}

// Appending records at one ability touches only that ability's slot.
proof fn lemma_insert_slot_find(
    slots: Seq<SpecSlot>,
    a: (Seq<char>, Seq<char>),
    nbs: Seq<SpecNb>,
    a2: (Seq<char>, Seq<char>),
)
    requires
        slots_wf(slots),
        ability_wf(a),
    ensures
        a2 == a ==> find_slot(spec_insert_slot(slots, a, nbs), a) == Some(
            SpecSlot { ability: a, nbs: list_slot_records(slots, a) + nbs },
        ),
        a2 != a ==> find_slot(spec_insert_slot(slots, a, nbs), a2) == find_slot(slots, a2),
    decreases slots.len(),
{
    let new = spec_insert_slot(slots, a, nbs);
    assert(find_slot(Seq::<SpecSlot>::empty(), a2) is None);
    assert(find_slot(Seq::<SpecSlot>::empty(), a) is None);
    if slots.len() == 0 {
        assert(new =~= seq![SpecSlot { ability: a, nbs }]);
        assert(new[0] == SpecSlot { ability: a, nbs });
        assert(Seq::<SpecNb>::empty() + nbs =~= nbs);
        if a2 != a {
            assert(new.drop_first() =~= Seq::<SpecSlot>::empty());
        }
    } else if ability_lt(a, slots[0].ability) {
        assert(new == seq![SpecSlot { ability: a, nbs }] + slots);
        assert(new[0] == SpecSlot { ability: a, nbs });
        assert(new.drop_first() =~= slots);
        // the key is below every ability present, so it is absent
        assert(find_slot(slots, a) is None) by {
            assert forall|q: int| 0 <= q < slots.len() implies (#[trigger] slots[q]).ability
                != a by {
                if q > 0 {
                    crate::ability::lemma_ability_lt_transitive(
                        a,
                        slots[0].ability,
                        slots[q].ability,
                    );
                }
                assert(ability_lt(a, slots[q].ability));
                crate::ability::lemma_ability_lt_irreflexive(a);
            }
            lemma_find_slot_skip(slots, a, slots.len() as int);
            assert(slots.skip(slots.len() as int).len() == 0);
        }
        assert(Seq::<SpecNb>::empty() + nbs =~= nbs);
        if a2 != a {
        }
    } else if a == slots[0].ability {
        assert(new == seq![SpecSlot { ability: a, nbs: slots[0].nbs + nbs }]
            + slots.drop_first());
        assert(new[0] == SpecSlot { ability: a, nbs: slots[0].nbs + nbs });
        assert(new.drop_first() =~= slots.drop_first());
        assert(list_slot_records(slots, a) == slots[0].nbs);
        if a2 != a {
        }
    } else {
        assert(slot_wf(slots[0]));
        crate::ability::lemma_ability_lt_trichotomy(slots[0].ability, a);
        assert(ability_lt(slots[0].ability, a));
        assert(a != slots[0].ability);
        let rest = slots.drop_first();
        assert(forall|q: int| 0 <= q < slots.len() - 1 ==> #[trigger] rest[q] == slots[q + 1]);
        assert(slots_wf(rest)) by {
            assert(forall|q: int| 0 <= q < rest.len() ==> #[trigger] rest[q] == slots[q + 1]);
        }
        lemma_insert_slot_find(rest, a, nbs, a2);
        assert(new == seq![slots[0]] + spec_insert_slot(rest, a, nbs));
        assert(new[0] == slots[0]);
        assert(new.drop_first() =~= spec_insert_slot(rest, a, nbs));
        if a2 == a {
            assert(new[0].ability != a);
            assert(list_slot_records(slots, a) == list_slot_records(rest, a));
        } else {
            if a2 == slots[0].ability {
            } else {
            }
        }
    }
}

// Appending records at one slot touches only that slot.
proof fn lemma_with_action_pointwise(
    c: SpecCapability,
    t: Seq<char>,
    a: (Seq<char>, Seq<char>),
    nbs: Seq<SpecNb>,
    t2: Seq<char>,
    a2: (Seq<char>, Seq<char>),
)
    requires
        spec_cap_wf(c),
        ability_wf(a),
    ensures
        slot_records(spec_with_action(c, t, a, nbs), t2, a2) == if t2 == t && a2 == a {
            slot_records(c, t, a) + nbs
        } else {
            slot_records(c, t2, a2)
        },
        has_slot(spec_with_action(c, t, a, nbs), t2, a2) == (has_slot(c, t2, a2) || (t2 == t
            && a2 == a)),
    decreases c.atts.len(),
{
    let atts = c.atts;
    let new = spec_insert_action(atts, t, a, nbs);
    assert(find_target(Seq::<SpecTargetEntry>::empty(), t2) is None);
    assert(find_target(Seq::<SpecTargetEntry>::empty(), t) is None);
    assert(find_slot(Seq::<SpecSlot>::empty(), a2) is None);
    if atts.len() == 0 {
        assert(new =~= seq![SpecTargetEntry {
            target: t,
            slots: seq![SpecSlot { ability: a, nbs }],
        }]);
        assert(new[0] == SpecTargetEntry { target: t, slots: seq![SpecSlot { ability: a, nbs }] });
        assert(new.drop_first() =~= Seq::<SpecTargetEntry>::empty());
        assert(seq![SpecSlot { ability: a, nbs }][0] == SpecSlot { ability: a, nbs });
        assert(seq![SpecSlot { ability: a, nbs }].drop_first() =~= Seq::<SpecSlot>::empty());
        assert(Seq::<SpecNb>::empty() + nbs =~= nbs);
    } else if chars_lt(t, atts[0].target) {
        assert(new == seq![SpecTargetEntry { target: t, slots: seq![SpecSlot { ability: a, nbs }] }]
            + atts);
        assert(new[0].target == t);
        assert(new.drop_first() =~= atts);
        assert(find_target(atts, t) is None) by {
            assert forall|q: int| 0 <= q < atts.len() implies (#[trigger] atts[q]).target
                != t by {
                if q > 0 {
                    crate::text::lemma_chars_lt_transitive(t, atts[0].target, atts[q].target);
                }
                assert(chars_lt(t, atts[q].target));
                crate::text::lemma_chars_lt_irreflexive(t);
            }
            lemma_find_target_skip(atts, t, atts.len() as int);
            assert(atts.skip(atts.len() as int).len() == 0);
        }
        assert(seq![SpecSlot { ability: a, nbs }][0] == SpecSlot { ability: a, nbs });
        assert(seq![SpecSlot { ability: a, nbs }].drop_first() =~= Seq::<SpecSlot>::empty());
        assert(Seq::<SpecNb>::empty() + nbs =~= nbs);
    } else if t == atts[0].target {
        let updated = SpecTargetEntry {
            target: t,
            slots: spec_insert_slot(atts[0].slots, a, nbs),
        };
        assert(new == seq![updated] + atts.drop_first());
        assert(new[0] == updated);
        assert(new.drop_first() =~= atts.drop_first());
        assert(target_entry_wf(atts[0]));
        lemma_insert_slot_find(atts[0].slots, a, nbs, a2);
        if t2 == t {
            assert(find_target(new, t) == Some(updated));
            assert(find_target(atts, t) == Some(atts[0]));
            assert(list_slot_records(atts[0].slots, a) == slot_records(c, t, a));
        }
    } else {
        crate::text::lemma_chars_lt_connected(t, atts[0].target);
        assert(chars_lt(atts[0].target, t));
        assert(t != atts[0].target) by {
            crate::text::lemma_chars_lt_irreflexive(t);
        }
        let rest = atts.drop_first();
        assert(forall|q: int| 0 <= q < atts.len() - 1 ==> #[trigger] rest[q] == atts[q + 1]);
        let crest = SpecCapability { atts: rest, proofs: c.proofs };
        assert(spec_cap_wf(crest)) by {
            assert(forall|q: int| 0 <= q < rest.len() ==> #[trigger] rest[q] == atts[q + 1]);
        }
        lemma_with_action_pointwise(crest, t, a, nbs, t2, a2);
        assert(new == seq![atts[0]] + spec_insert_action(rest, t, a, nbs));
        assert(new[0] == atts[0]);
        assert(new.drop_first() =~= spec_insert_action(rest, t, a, nbs));
        if t2 == atts[0].target {
            assert(find_target(new, t2) == Some(atts[0]));
            assert(find_target(atts, t2) == Some(atts[0]));
        } else {
            assert(find_target(new, t2) == find_target(spec_insert_action(rest, t, a, nbs), t2));
            assert(find_target(atts, t2) == find_target(rest, t2));
        }
    }
}

// Folding in one target's slots appends exactly that target's records.
proof fn lemma_merge_slots_pointwise(
    c: SpecCapability,
    t: Seq<char>,
    slots: Seq<SpecSlot>,
    t2: Seq<char>,
    a2: (Seq<char>, Seq<char>),
)
    requires
        spec_cap_wf(c),
        is_uri_text(t),
        slots_wf(slots),
    ensures
        spec_cap_wf(spec_merge_slots(c, t, slots)),
        spec_merge_slots(c, t, slots).proofs == c.proofs,
        slot_records(spec_merge_slots(c, t, slots), t2, a2) == if t2 == t {
            slot_records(c, t2, a2) + list_slot_records(slots, a2)
        } else {
            slot_records(c, t2, a2)
        },
        has_slot(spec_merge_slots(c, t, slots), t2, a2) == (has_slot(c, t2, a2) || (t2 == t
            && find_slot(slots, a2) is Some)),
    decreases slots.len(),
{
    if slots.len() == 0 {
        assert(slot_records(c, t2, a2) + Seq::<SpecNb>::empty() =~= slot_records(c, t2, a2));
    } else {
        let head = slots[0];
        assert(slot_wf(head));
        let c1 = spec_with_action(c, t, head.ability, head.nbs);
        assert(spec_cap_wf(c1)) by {
            let j = lemma_scan_position_targets(c.atts, t);
            if j < c.atts.len() && c.atts[j as int].target == t {
                let j2 = lemma_scan_position_slots(c.atts[j as int].slots, head.ability);
                lemma_with_action_wf(c, t, head.ability, head.nbs, j, j2);
            } else {
                lemma_with_action_wf(c, t, head.ability, head.nbs, j, 0);
            }
        }
        let rest = slots.drop_first();
        assert(forall|q: int| 0 <= q < slots.len() - 1 ==> #[trigger] rest[q] == slots[q + 1]);
        assert(slots_wf(rest)) by {
            assert(forall|q: int| 0 <= q < rest.len() ==> #[trigger] rest[q] == slots[q + 1]);
        }
        lemma_merge_slots_pointwise(c1, t, rest, t2, a2);
        lemma_with_action_pointwise(c, t, head.ability, head.nbs, t2, a2);
        // the head's ability does not recur in the remainder
        if t2 == t {
            if a2 == head.ability {
                assert(find_slot(rest, a2) is None) by {
                    assert forall|q: int| 0 <= q < rest.len() implies (#[trigger] rest[q]).ability
                        != a2 by {
                        assert(ability_lt(slots[0].ability, slots[q + 1].ability));
                        crate::ability::lemma_ability_lt_trichotomy(
                            slots[0].ability,
                            slots[q + 1].ability,
                        );
                    }
                    lemma_find_slot_skip(rest, a2, rest.len() as int);
                    assert(rest.skip(rest.len() as int).len() == 0);
                }
                assert(list_slot_records(slots, a2) == head.nbs);
                assert(slot_records(c1, t, a2) + Seq::<SpecNb>::empty() =~= slot_records(
                    c1,
                    t,
                    a2,
                ));
            } else {
                assert(find_slot(slots, a2) == find_slot(rest, a2)) by {
                    assert(slots.drop_first() =~= rest);
                }
                assert(list_slot_records(slots, a2) == list_slot_records(rest, a2));
            }
        }
    }
}

// Folding in every target of the other operand.
proof fn lemma_merge_atts_pointwise(
    c: SpecCapability,
    atts: Seq<SpecTargetEntry>,
    t2: Seq<char>,
    a2: (Seq<char>, Seq<char>),
)
    requires
        spec_cap_wf(c),
        forall|i: int| 0 <= i < atts.len() ==> target_entry_wf(#[trigger] atts[i]),
        forall|i: int, j: int|
            0 <= i < j < atts.len() ==> chars_lt(
                (#[trigger] atts[i]).target,
                (#[trigger] atts[j]).target,
            ),
    ensures
        spec_cap_wf(spec_merge_atts(c, atts)),
        spec_merge_atts(c, atts).proofs == c.proofs,
        slot_records(spec_merge_atts(c, atts), t2, a2) == slot_records(c, t2, a2) + (match
        find_target(atts, t2) {
            Some(te) => list_slot_records(te.slots, a2),
            None => Seq::empty(),
        }),
        has_slot(spec_merge_atts(c, atts), t2, a2) == (has_slot(c, t2, a2) || (match find_target(
            atts,
            t2,
        ) {
            Some(te) => find_slot(te.slots, a2) is Some,
            None => false,
        })),
    decreases atts.len(),
{
    if atts.len() == 0 {
        assert(slot_records(c, t2, a2) + Seq::<SpecNb>::empty() =~= slot_records(c, t2, a2));
    } else {
        let head = atts[0];
        assert(target_entry_wf(head));
        let c1 = spec_merge_slots(c, head.target, head.slots);
        lemma_merge_slots_pointwise(c, head.target, head.slots, t2, a2);
        let rest = atts.drop_first();
        assert(forall|q: int| 0 <= q < atts.len() - 1 ==> #[trigger] rest[q] == atts[q + 1]);
        lemma_merge_atts_pointwise(c1, rest, t2, a2);
        if t2 == head.target {
            // the head's target does not recur in the remainder
            assert(find_target(rest, t2) is None) by {
                assert forall|q: int| 0 <= q < rest.len() implies (#[trigger] rest[q]).target
                    != t2 by {
                    assert(chars_lt(atts[0].target, atts[q + 1].target));
                    crate::text::lemma_chars_lt_irreflexive(atts[0].target);
                    crate::text::lemma_chars_lt_asymmetric(atts[0].target, atts[q + 1].target);
                }
                lemma_find_target_skip(rest, t2, rest.len() as int);
                assert(rest.skip(rest.len() as int).len() == 0);
            }
            assert(find_target(atts, t2) == Some(head));
            assert(slot_records(spec_merge_atts(c, atts), t2, a2) == slot_records(c1, t2, a2)
                + Seq::<SpecNb>::empty());
            assert(slot_records(c1, t2, a2) + Seq::<SpecNb>::empty() =~= slot_records(
                c1,
                t2,
                a2,
            ));
        } else {
            assert(find_target(atts, t2) == find_target(rest, t2)) by {
                assert(atts.drop_first() =~= rest);
            }
        }
    }
}

// Uniting the proof references: membership is the union, order and
// uniqueness are kept.
proof fn lemma_insert_proof_member(proofs: Seq<Seq<char>>, p: Seq<char>, x: Seq<char>)
    ensures
        spec_insert_proof(proofs, p).contains(x) <==> (proofs.contains(x) || x == p),
    decreases proofs.len(),
{
    let new = spec_insert_proof(proofs, p);
    if proofs.len() == 0 {
        assert(new =~= seq![p]);
        assert(new.contains(p)) by {
            assert(new[0] == p);
        }
        if new.contains(x) {
            let k = choose|k: int| 0 <= k < new.len() && new[k] == x;
            assert(x == p);
        }
        if x == p {
            assert(new.contains(x));
        }
    } else if chars_lt(p, proofs[0]) {
        assert(new == seq![p] + proofs);
        if new.contains(x) {
            let k = choose|k: int| 0 <= k < new.len() && new[k] == x;
            if k > 0 {
                assert(proofs[k - 1] == x);
                assert(proofs.contains(x));
            }
        }
        if proofs.contains(x) {
            let k = choose|k: int| 0 <= k < proofs.len() && proofs[k] == x;
            assert(new[k + 1] == x);
            assert(new.contains(x));
        }
        if x == p {
            assert(new[0] == x);
            assert(new.contains(x));
        }
    } else if p == proofs[0] {
        if x == p {
            assert(proofs[0] == x);
            assert(proofs.contains(x));
        }
    } else {
        let rest = proofs.drop_first();
        assert(forall|q: int| 0 <= q < proofs.len() - 1 ==> #[trigger] rest[q] == proofs[q + 1]);
        lemma_insert_proof_member(rest, p, x);
        assert(new == seq![proofs[0]] + spec_insert_proof(rest, p));
        if new.contains(x) {
            let k = choose|k: int| 0 <= k < new.len() && new[k] == x;
            if k == 0 {
                assert(proofs[0] == x);
                assert(proofs.contains(x));
            } else {
                assert(spec_insert_proof(rest, p)[k - 1] == x);
                assert(spec_insert_proof(rest, p).contains(x));
                if rest.contains(x) {
                    let w = choose|w: int| 0 <= w < rest.len() && rest[w] == x;
                    assert(proofs[w + 1] == x);
                    assert(proofs.contains(x));
                }
            }
        }
        if proofs.contains(x) {
            let k = choose|k: int| 0 <= k < proofs.len() && proofs[k] == x;
            if k == 0 {
                assert(new[0] == x);
                assert(new.contains(x));
            } else {
                assert(rest[k - 1] == x);
                assert(rest.contains(x));
                assert(spec_insert_proof(rest, p).contains(x));
                let w = choose|w: int|
                    0 <= w < spec_insert_proof(rest, p).len() && spec_insert_proof(rest, p)[w]
                        == x;
                assert(new[w + 1] == x);
                assert(new.contains(x));
            }
        }
        if x == p {
            assert(spec_insert_proof(rest, p).contains(x));
            let w = choose|w: int|
                0 <= w < spec_insert_proof(rest, p).len() && spec_insert_proof(rest, p)[w] == x;
            assert(new[w + 1] == x);
            assert(new.contains(x));
        }
    }
}

proof fn lemma_with_proofs_member(c: SpecCapability, ps: Seq<Seq<char>>, x: Seq<char>)
    ensures
        spec_with_proofs(c, ps).atts == c.atts,
        spec_with_proofs(c, ps).proofs.contains(x) <==> (c.proofs.contains(x) || ps.contains(x)),
    decreases ps.len(),
{
    if ps.len() == 0 {
        if ps.contains(x) {
            let k = choose|k: int| 0 <= k < ps.len() && ps[k] == x;
        }
    } else {
        let c1 = spec_with_proof(c, ps[0]);
        lemma_insert_proof_member(c.proofs, ps[0], x);
        let rest = ps.drop_first();
        assert(forall|q: int| 0 <= q < ps.len() - 1 ==> #[trigger] rest[q] == ps[q + 1]);
        lemma_with_proofs_member(c1, rest, x);
        if ps.contains(x) {
            let k = choose|k: int| 0 <= k < ps.len() && ps[k] == x;
            if k == 0 {
            } else {
                assert(rest[k - 1] == x);
                assert(rest.contains(x));
            }
        }
        if rest.contains(x) {
            let k = choose|k: int| 0 <= k < rest.len() && rest[k] == x;
            assert(ps[k + 1] == x);
            assert(ps.contains(x));
        }
    }
}

/// Merging is lossless, slot by slot: the merged capability grants a slot
/// exactly when one operand does, its records there are the first operand's
/// followed by the second's, and its proof set is the union of the
/// operands' proof sets.
pub proof fn lemma_merge_lossless(a: SpecCapability, b: SpecCapability)
    requires
        spec_cap_wf(a),
        spec_cap_wf(b),
    ensures
        spec_cap_wf(spec_merge(a, b)),
        forall|t: Seq<char>, x: (Seq<char>, Seq<char>)|
            #[trigger] slot_records(spec_merge(a, b), t, x) == slot_records(a, t, x)
                + slot_records(b, t, x),
        forall|t: Seq<char>, x: (Seq<char>, Seq<char>)|
            #[trigger] has_slot(spec_merge(a, b), t, x) == (has_slot(a, t, x) || has_slot(
                b,
                t,
                x,
            )),
        forall|p: Seq<char>|
            #[trigger] spec_merge(a, b).proofs.contains(p) <==> (a.proofs.contains(p)
                || b.proofs.contains(p)),
{
    let merged_atts = spec_merge_atts(a, b.atts);
    assert forall|t: Seq<char>, x: (Seq<char>, Seq<char>)|
        #[trigger] slot_records(spec_merge(a, b), t, x) == slot_records(a, t, x) + slot_records(
        b,
        t,
        x,
    ) by {
        lemma_merge_atts_pointwise(a, b.atts, t, x);
        lemma_with_proofs_member(merged_atts, b.proofs, t);
        assert(spec_merge(a, b).atts == merged_atts.atts);
        match find_target(b.atts, t) {
            Some(te) => {
                assert(slot_records(b, t, x) == list_slot_records(te.slots, x));
            },
            None => {
                assert(slot_records(b, t, x) =~= Seq::<SpecNb>::empty());
                assert(slot_records(a, t, x) + Seq::<SpecNb>::empty() =~= slot_records(
                    a,
                    t,
                    x,
                ));
            },
        }
    }
    assert forall|t: Seq<char>, x: (Seq<char>, Seq<char>)|
        #[trigger] has_slot(spec_merge(a, b), t, x) == (has_slot(a, t, x) || has_slot(
        b,
        t,
        x,
    )) by {
        lemma_merge_atts_pointwise(a, b.atts, t, x);
        lemma_with_proofs_member(merged_atts, b.proofs, t);
        assert(spec_merge(a, b).atts == merged_atts.atts);
        match find_target(b.atts, t) {
            Some(te) => {
                assert(slot_records(b, t, x) == list_slot_records(te.slots, x));
            },
            None => {
                assert(slot_records(b, t, x) =~= Seq::<SpecNb>::empty());
                assert(slot_records(a, t, x) + Seq::<SpecNb>::empty() =~= slot_records(
                    a,
                    t,
                    x,
                ));
            },
        }
    }
    assert forall|p: Seq<char>|
        #[trigger] spec_merge(a, b).proofs.contains(p) <==> (a.proofs.contains(p)
            || b.proofs.contains(p)) by {
        lemma_merge_atts_pointwise(a, b.atts, p, (p, p));
        lemma_with_proofs_member(merged_atts, b.proofs, p);
    }
    assert(spec_cap_wf(spec_merge(a, b))) by {
        lemma_merge_atts_pointwise(a, b.atts, Seq::empty(), (Seq::empty(), Seq::empty()));
        lemma_with_proofs_wf(merged_atts, b.proofs);
    }
}

proof fn lemma_with_proofs_wf(c: SpecCapability, ps: Seq<Seq<char>>)
    requires
        spec_cap_wf(c),
        forall|k: int| 0 <= k < ps.len() ==> proof_text_wf(#[trigger] ps[k]),
    ensures
        spec_cap_wf(spec_with_proofs(c, ps)),
    decreases ps.len(),
{
    if ps.len() > 0 {
        let j = lemma_scan_position_proofs(c.proofs, ps[0]);
        lemma_with_proof_wf(c, ps[0], j);
        let rest = ps.drop_first();
        assert(forall|q: int| 0 <= q < ps.len() - 1 ==> #[trigger] rest[q] == ps[q + 1]);
        lemma_with_proofs_wf(spec_with_proof(c, ps[0]), rest);
    }
}

proof fn lemma_scan_position_proofs(proofs: Seq<Seq<char>>, p: Seq<char>) -> (j: int)
    ensures
        0 <= j <= proofs.len(),
        forall|q: int| 0 <= q < j ==> chars_lt(#[trigger] proofs[q], p),
        j < proofs.len() ==> !chars_lt(proofs[j as int], p),
    decreases proofs.len(),
{
    if proofs.len() == 0 {
        0
    } else if chars_lt(proofs[0], p) {
        let rest = proofs.drop_first();
        assert(forall|q: int| 0 <= q < proofs.len() - 1 ==> #[trigger] rest[q] == proofs[q + 1]);
        let j2 = lemma_scan_position_proofs(rest, p);
        assert forall|q: int| 0 <= q < j2 + 1 implies chars_lt(#[trigger] proofs[q], p) by {
            if q >= 1 {
                assert(rest[q - 1] == proofs[q]);
            }
        }
        j2 + 1
    } else {
        0
    }
}

// Strictly ascending neighbours give a strictly ascending text sequence.
proof fn lemma_adjacent_sorted_texts(ts: Seq<Seq<char>>)
    requires
        forall|k: int| 0 <= k < ts.len() - 1 ==> chars_lt(#[trigger] ts[k], ts[k + 1]),
    ensures
        forall|q1: int, q2: int|
            0 <= q1 < q2 < ts.len() ==> chars_lt(#[trigger] ts[q1], #[trigger] ts[q2]),
{
    assert forall|q1: int, q2: int| 0 <= q1 < q2 < ts.len() implies chars_lt(
        #[trigger] ts[q1],
        #[trigger] ts[q2],
    ) by {
        lemma_adjacent_sorted_texts_span(ts, q1, q2);
    }
}

proof fn lemma_adjacent_sorted_texts_span(ts: Seq<Seq<char>>, i: int, j: int)
    requires
        forall|k: int| 0 <= k < ts.len() - 1 ==> chars_lt(#[trigger] ts[k], ts[k + 1]),
        0 <= i < j < ts.len(),
    ensures
        chars_lt(ts[i], ts[j]),
    decreases j - i,
{
    if i + 1 == j {
        assert(chars_lt(ts[i], ts[i + 1]));
    } else {
        lemma_adjacent_sorted_texts_span(ts, i, j - 1);
        assert(chars_lt(ts[j - 1], ts[j]));
        crate::text::lemma_chars_lt_transitive(ts[i], ts[j - 1], ts[j]);
    }
}

// Reads a capability back out of a payload value; exactly the payloads of
// well-formed capabilities are accepted.
#[verifier::rlimit(40)]
#[verifier::loop_isolation(false)]
fn value_to_capability(v: Value) -> (r: Result<Capability, ()>)
    requires
        spec_value_wf(v@),
    ensures
        forall|sc: SpecCapability|
            spec_cap_wf(sc) && v@ == #[trigger] payload_of(sc) ==> (r matches Ok(c) && c@ == sc),
{
    let ghost v0 = v@;
    let (att_val, prf_val) = match v {
        Value::Obj(mut fields) => {
            proof {
                crate::value::lemma_spec_fields_of_index(fields@);
            }
            let ghost f0 = spec_fields_of(fields@);
            if fields.len() != 2 {
                proof {
                    assert forall|sc: SpecCapability|
                        spec_cap_wf(sc) && v0 == #[trigger] payload_of(sc) implies false by {
                        assert(payload_of(sc)->Obj_0.len() == 2);
                    }
                }
                return Err(());
            }
            let (k2, v2) = fields.remove(1);
            let (k1, v1) = fields.remove(0);
            proof {
                assert(k1@ == f0[0].0 && v1@ == f0[0].1);
                assert(k2@ == f0[1].0 && v2@ == f0[1].1);
            }
            let att_name = "att";
            let prf_name = "prf";
            proof {
                reveal_strlit("att");
                reveal_strlit("prf");
                assert(att_name@ =~= att_key());
                assert(prf_name@ =~= prf_key());
            }
            if !str_eq(k1.as_str(), att_name) || !str_eq(k2.as_str(), prf_name) {
                proof {
                    assert forall|sc: SpecCapability|
                        spec_cap_wf(sc) && v0 == #[trigger] payload_of(sc) implies false by {
                        assert(payload_of(sc)->Obj_0[0].0 == att_key());
                        assert(payload_of(sc)->Obj_0[1].0 == prf_key());
                    }
                }
                return Err(());
            }
            proof {
                crate::value::lemma_wf_obj_field(f0, 0);
                crate::value::lemma_wf_obj_field(f0, 1);
            }
            (v1, v2)
        },
        other => {
            proof {
                assert forall|sc: SpecCapability|
                    spec_cap_wf(sc) && v0 == #[trigger] payload_of(sc) implies false by {
                    assert(other@ == v0);
                }
            }
            return Err(());
        },
    };
    let ghost att0 = att_val@;
    let ghost prf0 = prf_val@;
    proof {
        assert(spec_value_wf(att0));
        assert(spec_value_wf(prf0));
        // the members of any rendered capability
        assert forall|sc: SpecCapability|
            spec_cap_wf(sc) && v0 == #[trigger] payload_of(sc) implies att0 == SpecValue::Obj(
            att_fields_of(sc.atts),
        ) && prf0 == SpecValue::Arr(prf_items_of(sc.proofs)) by {
            assert(payload_of(sc)->Obj_0[0].1 == SpecValue::Obj(att_fields_of(sc.atts)));
            assert(payload_of(sc)->Obj_0[1].1 == SpecValue::Arr(prf_items_of(sc.proofs)));
        }
    }
    // the attenuation member
    let attenuations = match att_val {
        Value::Obj(mut tfields) => {
            proof {
                crate::value::lemma_spec_fields_of_index(tfields@);
            }
            let ghost tf0 = spec_fields_of(tfields@);
            let ghost tf_vec0 = tfields@;
            proof {
                assert(att0 == SpecValue::Obj(tf0));
            }
            let mut atts_vec: Vec<TargetEntry> = Vec::new();
            while tfields.len() > 0
                invariant
                    spec_value_wf(SpecValue::Obj(tf0)),
                    tf0 == spec_fields_of(tf_vec0),
                    tf0.len() == tf_vec0.len(),
                    atts_vec@.len() + tfields@.len() == tf_vec0.len(),
                    forall|k: int| 0 <= k < tfields@.len() ==> #[trigger] tfields@[k]
                        == tf_vec0[atts_vec@.len() + k],
                    spec_atts_of(atts_vec@).len() == atts_vec@.len(),
                    att_fields_of(spec_atts_of(atts_vec@)).len() == atts_vec@.len(),
                    forall|k: int| 0 <= k < atts_vec@.len() ==> att_fields_of(
                        spec_atts_of(atts_vec@),
                    )[k] == #[trigger] tf0[k],
                    forall|k: int| 0 <= k < atts_vec@.len() ==> target_entry_wf(
                        #[trigger] spec_atts_of(atts_vec@)[k],
                    ),
                decreases tfields@.len(),
            {
                let ghost idx = atts_vec@.len() as int;
                let ghost pre = tfields@;
                let (tkey, tval) = tfields.remove(0);
                proof {
                    assert(tfields@ =~= pre.drop_first());
                    assert((tkey, tval) == tf_vec0[idx]);
                    crate::value::lemma_spec_fields_of_index(tf_vec0);
                    assert(tf0[idx] == (tkey@, tval@));
                    crate::value::lemma_wf_obj_field(tf0, idx);
                }
                if !uri_ok(tkey.as_str()) {
                    proof {
                        assert forall|sc: SpecCapability|
                            spec_cap_wf(sc) && v0 == #[trigger] payload_of(sc) implies false by {
                            lemma_att_fields_of_index(sc.atts);
                            assert(tf0 == att_fields_of(sc.atts));
                            assert(tf0[idx].0 == sc.atts[idx].target);
                            assert(target_entry_wf(sc.atts[idx]));
                        }
                    }
                    return Err(());
                }
                let sfields = match tval {
                    Value::Obj(sf) => sf,
                    other2 => {
                        proof {
                            assert forall|sc: SpecCapability|
                                spec_cap_wf(sc) && v0 == #[trigger] payload_of(sc) implies false
                                by {
                                lemma_att_fields_of_index(sc.atts);
                                assert(tf0 == att_fields_of(sc.atts));
                                assert(tf0[idx].1 == SpecValue::Obj(slot_fields_of(
                                    sc.atts[idx].slots,
                                )));
                                assert(other2@ == tf0[idx].1);
                            }
                        }
                        return Err(());
                    },
                };
                if sfields.len() == 0 {
                    proof {
                        crate::value::lemma_spec_fields_of_index(sfields@);
                        assert forall|sc: SpecCapability|
                            spec_cap_wf(sc) && v0 == #[trigger] payload_of(sc) implies false by {
                            lemma_att_fields_of_index(sc.atts);
                            assert(tf0 == att_fields_of(sc.atts));
                            assert(tf0[idx].1 == SpecValue::Obj(slot_fields_of(
                                sc.atts[idx].slots,
                            )));
                            lemma_slot_fields_of_index(sc.atts[idx].slots);
                            assert(target_entry_wf(sc.atts[idx]));
                        }
                    }
                    return Err(());
                }
                proof {
                    assert(SpecValue::Obj(spec_fields_of(sfields@)) == tf0[idx].1);
                }
                let abilities = match fields_to_slots(sfields) {
                    Ok(sl) => sl,
                    Err(_) => {
                        proof {
                            assert forall|sc: SpecCapability|
                                spec_cap_wf(sc) && v0 == #[trigger] payload_of(sc) implies false
                                by {
                                lemma_att_fields_of_index(sc.atts);
                                assert(tf0 == att_fields_of(sc.atts));
                                assert(tf0[idx].1 == SpecValue::Obj(slot_fields_of(
                                    sc.atts[idx].slots,
                                )));
                                assert(target_entry_wf(sc.atts[idx]));
                                assert(slots_wf(sc.atts[idx].slots));
                            }
                        }
                        return Err(());
                    },
                };
                let ghost apre = atts_vec@;
                atts_vec.push(TargetEntry { target: Target { text: tkey }, abilities });
                proof {
                    lemma_spec_atts_of_index(atts_vec@);
                    lemma_spec_atts_of_index(apre);
                    lemma_att_fields_of_index(spec_atts_of(atts_vec@));
                    lemma_att_fields_of_index(spec_atts_of(apre));
                    assert(spec_atts_of(atts_vec@)[idx].slots.len() > 0) by {
                        lemma_slot_fields_of_index(spec_atts_of(atts_vec@)[idx].slots);
                    }
                    assert forall|k: int| 0 <= k < atts_vec@.len() implies att_fields_of(
                        spec_atts_of(atts_vec@),
                    )[k] == #[trigger] tf0[k] by {
                        if k < idx {
                            assert(atts_vec@[k] == apre[k]);
                            assert(spec_atts_of(apre)[k] == apre[k]@);
                        }
                    }
                    assert forall|k: int| 0 <= k < atts_vec@.len() implies target_entry_wf(
                        #[trigger] spec_atts_of(atts_vec@)[k],
                    ) by {
                        if k < idx {
                            assert(atts_vec@[k] == apre[k]);
                            assert(spec_atts_of(apre)[k] == apre[k]@);
                        }
                    }
                }
            }
            proof {
                assert(att_fields_of(spec_atts_of(atts_vec@)) =~= tf0);
            }
            atts_vec
        },
        other => {
            proof {
                assert forall|sc: SpecCapability|
                    spec_cap_wf(sc) && v0 == #[trigger] payload_of(sc) implies false by {
                    assert(other@ == att0);
                }
            }
            return Err(());
        },
    };
    // the proof member
    let proofs = match prf_val {
        Value::Arr(items) => {
            proof {
                crate::value::lemma_spec_values_of_index(items@);
                assert(SpecValue::Arr(crate::value::spec_values_of(items@)) == prf0);
            }
            let ghost pi0 = crate::value::spec_values_of(items@);
            match items_to_proofs(items) {
                Ok(ps) => ps,
                Err(_) => {
                    proof {
                        assert forall|sc: SpecCapability|
                            spec_cap_wf(sc) && v0 == #[trigger] payload_of(sc) implies false by {
                            assert(pi0 == prf_items_of(sc.proofs));
                        }
                    }
                    return Err(());
                },
            }
        },
        other => {
            proof {
                assert forall|sc: SpecCapability|
                    spec_cap_wf(sc) && v0 == #[trigger] payload_of(sc) implies false by {
                    assert(other@ == prf0);
                }
            }
            return Err(());
        },
    };
    let ghost built = SpecCapability {
        atts: spec_atts_of(attenuations@),
        proofs: spec_proofs_of(proofs@),
    };
    proof {
        // the built model is well formed and renders back to the input
        assert(spec_cap_wf(built)) by {
            lemma_att_fields_of_index(spec_atts_of(attenuations@));
            assert forall|q1: int, q2: int|
                0 <= q1 < q2 < built.atts.len() implies chars_lt(
                (#[trigger] built.atts[q1]).target,
                (#[trigger] built.atts[q2]).target,
            ) by {
                crate::value::lemma_wf_obj_sorted(
                    att_fields_of(spec_atts_of(attenuations@)),
                    q1,
                    q2,
                );
            }
        }
    }
    let c = Capability { attenuations, proofs };
    proof {
        assert(c@ == built);
        assert(payload_of(c@) == v0) by {
            assert(att_fields_of(c@.atts) == att0->Obj_0);
            assert(prf_items_of(c@.proofs) == prf0->Arr_0);
            assert(payload_of(c@)->Obj_0 =~= v0->Obj_0);
        }
        assert forall|sc: SpecCapability|
            spec_cap_wf(sc) && v0 == #[trigger] payload_of(sc) implies c@ == sc by {
            lemma_payload_injective(c@, sc);
            assert(c@.atts == sc.atts && c@.proofs == sc.proofs);
        }
    }
    Ok(c)
}

// The failures of decoding a transport string.
#[derive(Debug, PartialEq, Eq)]
pub enum DecodingError {
    InvalidResourcePrefix(String),
    Base64Decode,
    Deserialization,
}

impl Capability {
    /// Decodes a transport string.  Decoding the encoding of any capability
    /// gives that capability back.  A text the base64 decoder rejects fails
    /// as a base64 fault; everything else that fails — bytes that are not
    /// the canonical payload text of some capability, a target or ability
    /// key off its grammar, a malformed proof reference — fails as a
    /// deserialization fault.
    pub fn decode(s: &str) -> (r: Result<Capability, DecodingError>)
        ensures
            forall|sc: SpecCapability|
                spec_cap_wf(sc) && s@ == crate::outside::b64_of(
                    #[trigger] jcs_value(payload_of(sc)),
                ) ==> (r matches Ok(c) && c@ == sc),
            r == Err::<Capability, DecodingError>(DecodingError::Base64Decode)
                <==> !crate::outside::is_b64_text(s@),
            r matches Err(e) ==> (e is Base64Decode || e is Deserialization),
            r is Err ==> forall|sc: SpecCapability|
                spec_cap_wf(sc) ==> s@ != crate::outside::b64_of(
                    #[trigger] jcs_value(payload_of(sc)),
                ),
    {
        let text = match crate::outside::b64_decode(s) {
            Ok(t) => t,
            Err(e) => {
                return Err(
                    match e {
                        crate::outside::TransportError::NotBase64 => DecodingError::Base64Decode,
                        crate::outside::TransportError::NotText => DecodingError::Deserialization,
                    },
                );
            },
        };
        proof {
            assert forall|sc: SpecCapability|
                spec_cap_wf(sc) && s@ == crate::outside::b64_of(
                    #[trigger] jcs_value(payload_of(sc)),
                ) implies text@ == jcs_value(payload_of(sc)) && spec_value_wf(payload_of(sc))
                by {
                lemma_payload_wf(sc);
            }
        }
        let v = match crate::codec::parse_value_text(text.as_str()) {
            Some(v) => v,
            None => {
                return Err(DecodingError::Deserialization);
            },
        };
        match value_to_capability(v) {
            Ok(c) => Ok(c),
            Err(_) => Err(DecodingError::Deserialization),
        }
    }
}

// Two well-formed capabilities with the same payload are the same model.
pub proof fn lemma_payload_injective(a: SpecCapability, b: SpecCapability)
    requires
        spec_cap_wf(a),
        spec_cap_wf(b),
        payload_of(a) == payload_of(b),
    ensures
        a.atts =~= b.atts,
        a.proofs =~= b.proofs,
{
    lemma_att_fields_of_index(a.atts);
    lemma_att_fields_of_index(b.atts);
    lemma_prf_items_of_index(a.proofs);
    lemma_prf_items_of_index(b.proofs);
    let pa = payload_of(a)->Obj_0;
    let pb = payload_of(b)->Obj_0;
    assert(pa[0].1 == pb[0].1);
    assert(pa[1].1 == pb[1].1);
    assert(att_fields_of(a.atts) == att_fields_of(b.atts));
    assert(prf_items_of(a.proofs) == prf_items_of(b.proofs));
    assert(a.proofs.len() == b.proofs.len());
    assert forall|i: int| 0 <= i < a.proofs.len() implies a.proofs[i] == b.proofs[i] by {
        assert(prf_items_of(a.proofs)[i] == prf_items_of(b.proofs)[i]);
    }
    assert(a.atts.len() == b.atts.len());
    assert forall|i: int| 0 <= i < a.atts.len() implies a.atts[i] == b.atts[i] by {
        assert(att_fields_of(a.atts)[i] == att_fields_of(b.atts)[i]);
        let sa = a.atts[i].slots;
        let sb = b.atts[i].slots;
        lemma_slot_fields_of_index(sa);
        lemma_slot_fields_of_index(sb);
        assert(SpecValue::Obj(slot_fields_of(sa)) == SpecValue::Obj(slot_fields_of(sb)));
        assert(slot_fields_of(sa) == slot_fields_of(sb));
        assert(sa.len() == sb.len());
        assert forall|q: int| 0 <= q < sa.len() implies sa[q] == sb[q] by {
            assert(slot_fields_of(sa)[q] == slot_fields_of(sb)[q]);
            assert(ability_text(sa[q].ability) == ability_text(sb[q].ability));
            assert(target_entry_wf(a.atts[i]));
            assert(target_entry_wf(b.atts[i]));
            assert(slot_wf(sa[q]));
            assert(slot_wf(sb[q]));
            crate::ability::lemma_ability_text_injective(sa[q].ability, sb[q].ability);
            lemma_nb_items_of_index(sa[q].nbs);
            lemma_nb_items_of_index(sb[q].nbs);
            assert(SpecValue::Arr(nb_items_of(sa[q].nbs)) == SpecValue::Arr(
                nb_items_of(sb[q].nbs),
            ));
            assert(sa[q].nbs.len() == sb[q].nbs.len());
            assert forall|w: int| 0 <= w < sa[q].nbs.len() implies sa[q].nbs[w] == sb[q].nbs[w]
                by {
                assert(nb_items_of(sa[q].nbs)[w] == nb_items_of(sb[q].nbs)[w]);
            }
            assert(sa[q].nbs =~= sb[q].nbs);
        }
        assert(sa =~= sb);
        assert(a.atts[i].target == b.atts[i].target);
    }
}

} // verus!
