use vstd::prelude::*;

use crate::capability::{Capability, SpecCapability, SpecSlot, SpecTargetEntry};
use crate::capability::{spec_atts_of, spec_slots_of};
use crate::text::{chars_lt, dec_str, push_char, str_lt, str_eq, usize_to_string};

verus! {

// ---------------------------------------------------------------------------
// The human-readable clause: a deterministic rendering of the attenuations,
// grouped per target by ability namespace.
// ---------------------------------------------------------------------------

pub open spec fn preamble() -> Seq<char> {
    "I further authorize the stated URI to perform the following actions on my behalf:"@
}

// Set-insertion of a namespace in text order, keeping one copy.
pub open spec fn insert_ns(nss: Seq<Seq<char>>, ns: Seq<char>) -> Seq<Seq<char>>
    decreases nss.len(),
{
    if nss.len() == 0 {
        seq![ns]
    } else if chars_lt(ns, nss[0]) {
        seq![ns] + nss
    } else if ns == nss[0] {
        nss
    } else {
        seq![nss[0]] + insert_ns(nss.drop_first(), ns)
    }
}

// The namespaces granted under one target, in text order.
pub open spec fn collect_nss(slots: Seq<SpecSlot>) -> Seq<Seq<char>>
    decreases slots.len(),
{
    if slots.len() == 0 {
        Seq::empty()
    } else {
        insert_ns(collect_nss(slots.drop_last()), slots.last().ability.0)
    }
}

// The names granted under one namespace, in slot order.
pub open spec fn names_for(slots: Seq<SpecSlot>, ns: Seq<char>) -> Seq<Seq<char>>
    decreases slots.len(),
{
    if slots.len() == 0 {
        Seq::empty()
    } else if slots.last().ability.0 == ns {
        names_for(slots.drop_last(), ns).push(slots.last().ability.1)
    } else {
        names_for(slots.drop_last(), ns)
    }
}

pub open spec fn quoted(s: Seq<char>) -> Seq<char> {
    seq!['\''] + s + seq!['\'']
}

pub open spec fn names_join(names: Seq<Seq<char>>) -> Seq<char>
    decreases names.len(),
{
    if names.len() == 0 {
        Seq::empty()
    } else if names.len() == 1 {
        quoted(names[0])
    } else {
        quoted(names[0]) + ", "@ + names_join(names.drop_first())
    }
}

// One clause: the namespace, the names, the target.
pub open spec fn line_of(target: Seq<char>, ns: Seq<char>, names: Seq<Seq<char>>) -> Seq<char> {
    quoted(ns) + ": "@ + names_join(names) + " for "@ + quoted(target) + "."@
}

pub open spec fn lines_for_nss(te: SpecTargetEntry, nss: Seq<Seq<char>>) -> Seq<Seq<char>>
    decreases nss.len(),
{
    if nss.len() == 0 {
        Seq::empty()
    } else {
        seq![line_of(te.target, nss[0], names_for(te.slots, nss[0]))] + lines_for_nss(
            te,
            nss.drop_first(),
        )
    }
}

pub open spec fn target_lines(te: SpecTargetEntry) -> Seq<Seq<char>> {
    lines_for_nss(te, collect_nss(te.slots))
}

pub open spec fn stmt_lines(atts: Seq<SpecTargetEntry>) -> Seq<Seq<char>>
    decreases atts.len(),
{
    if atts.len() == 0 {
        Seq::empty()
    } else {
        target_lines(atts[0]) + stmt_lines(atts.drop_first())
    }
}

// The numbered clauses, from number k on.
pub open spec fn numbered(lines: Seq<Seq<char>>, k: nat) -> Seq<char>
    decreases lines.len(),
{
    if lines.len() == 0 {
        Seq::empty()
    } else {
        " ("@ + dec_str(k) + ") "@ + lines[0] + numbered(lines.drop_first(), (k + 1) as nat)
    }
}

// The whole statement: the preamble, then every clause in order.
pub open spec fn stmt_text(c: SpecCapability) -> Seq<char> {
    preamble() + numbered(stmt_lines(c.atts), 1)
}

// The scanned position determines the shape of a namespace insertion.
proof fn lemma_insert_ns_at(nss: Seq<Seq<char>>, ns: Seq<char>, j: int)
    requires
        0 <= j <= nss.len(),
        forall|q: int| 0 <= q < j ==> chars_lt(#[trigger] nss[q], ns),
        j < nss.len() ==> !chars_lt(nss[j as int], ns),
    ensures
        j < nss.len() && nss[j as int] == ns ==> insert_ns(nss, ns) == nss,
        !(j < nss.len() && nss[j as int] == ns) ==> insert_ns(nss, ns) == nss.insert(j, ns),
    decreases j,
{
    if j == 0 {
        if nss.len() == 0 {
            assert(insert_ns(nss, ns) =~= nss.insert(0, ns));
        } else if nss[0] == ns {
            crate::text::lemma_chars_lt_irreflexive(ns);
        } else if chars_lt(ns, nss[0]) {
            assert(seq![ns] + nss =~= nss.insert(0, ns));
        } else {
            crate::text::lemma_chars_lt_connected(ns, nss[0]);
            assert(false);
        }
    } else {
        assert(chars_lt(nss[0], ns));
        crate::text::lemma_chars_lt_asymmetric(nss[0], ns);
        assert(ns != nss[0]) by {
            crate::text::lemma_chars_lt_irreflexive(ns);
        }
        let rest = nss.drop_first();
        assert(forall|q: int| 0 <= q < nss.len() - 1 ==> #[trigger] rest[q] == nss[q + 1]);
        lemma_insert_ns_at(rest, ns, j - 1);
        if j < nss.len() && nss[j as int] == ns {
            assert(rest[j - 1] == nss[j as int]);
            assert(seq![nss[0]] + rest =~= nss);
        } else {
            assert(seq![nss[0]] + rest.insert(j - 1, ns) =~= nss.insert(j, ns));
        }
    }
}

// Sortedness of the collected namespaces, for the scans that rebuild them.
proof fn lemma_insert_ns_sorted(nss: Seq<Seq<char>>, ns: Seq<char>)
    requires
        forall|q1: int, q2: int|
            0 <= q1 < q2 < nss.len() ==> chars_lt(#[trigger] nss[q1], #[trigger] nss[q2]),
    ensures
        forall|q1: int, q2: int|
            0 <= q1 < q2 < insert_ns(nss, ns).len() ==> chars_lt(
                #[trigger] insert_ns(nss, ns)[q1],
                #[trigger] insert_ns(nss, ns)[q2],
            ),
    decreases nss.len(),
{
    if nss.len() == 0 {
        assert(insert_ns(nss, ns) =~= seq![ns]);
    } else if chars_lt(ns, nss[0]) {
        let new = seq![ns] + nss;
        assert forall|q1: int, q2: int| 0 <= q1 < q2 < new.len() implies chars_lt(
            #[trigger] new[q1],
            #[trigger] new[q2],
        ) by {
            if q1 == 0 {
                if q2 > 1 {
                    crate::text::lemma_chars_lt_transitive(ns, nss[0], nss[q2 - 1]);
                }
            } else {
                assert(new[q1] == nss[q1 - 1]);
                assert(new[q2] == nss[q2 - 1]);
            }
        }
    } else if ns == nss[0] {
    } else {
        crate::text::lemma_chars_lt_connected(ns, nss[0]);
        assert(chars_lt(nss[0], ns));
        let rest = nss.drop_first();
        assert(forall|q: int| 0 <= q < nss.len() - 1 ==> #[trigger] rest[q] == nss[q + 1]);
        lemma_insert_ns_sorted(rest, ns);
        let new = seq![nss[0]] + insert_ns(rest, ns);
        assert forall|q1: int, q2: int| 0 <= q1 < q2 < new.len() implies chars_lt(
            #[trigger] new[q1],
            #[trigger] new[q2],
        ) by {
            if q1 == 0 {
                lemma_insert_ns_member(rest, ns, q2 - 1);
                let m = insert_ns(rest, ns)[q2 - 1];
                if m == ns {
                } else {
                    assert(exists|w: int| 0 <= w < rest.len() && rest[w] == m);
                    let w = choose|w: int| 0 <= w < rest.len() && rest[w] == m;
                    assert(chars_lt(nss[0], nss[w + 1]));
                }
            } else {
                assert(new[q1] == insert_ns(rest, ns)[q1 - 1]);
                assert(new[q2] == insert_ns(rest, ns)[q2 - 1]);
            }
        }
    }
}

// Every member of an insertion is the new text or an old member.
proof fn lemma_insert_ns_member(nss: Seq<Seq<char>>, ns: Seq<char>, q: int)
    requires
        0 <= q < insert_ns(nss, ns).len(),
    ensures
        insert_ns(nss, ns)[q] == ns || exists|w: int|
            0 <= w < nss.len() && nss[w] == #[trigger] insert_ns(nss, ns)[q],
    decreases nss.len(),
{
    if nss.len() == 0 {
    } else if chars_lt(ns, nss[0]) {
        if q > 0 {
            assert(insert_ns(nss, ns)[q] == nss[q - 1]);
        }
    } else if ns == nss[0] {
        assert(insert_ns(nss, ns)[q] == nss[q]);
    } else {
        if q > 0 {
            let rest = nss.drop_first();
            lemma_insert_ns_member(rest, ns, q - 1);
            assert(insert_ns(nss, ns)[q] == insert_ns(rest, ns)[q - 1]);
            if insert_ns(rest, ns)[q - 1] != ns {
                let w = choose|w: int|
                    0 <= w < rest.len() && rest[w] == insert_ns(rest, ns)[q - 1];
                assert(nss[w + 1] == insert_ns(nss, ns)[q]);
            }
        }
    }
}

pub open spec fn texts_of(s: Seq<String>) -> Seq<Seq<char>>
    decreases s,
{
    if s.len() == 0 {
        Seq::empty()
    } else {
        seq![s[0]@] + texts_of(s.drop_first())
    }
}

pub proof fn lemma_texts_of_index(s: Seq<String>)
    ensures
        texts_of(s).len() == s.len(),
        forall|i: int| 0 <= i < s.len() ==> #[trigger] texts_of(s)[i] == s[i]@,
    decreases s,
{
    if s.len() > 0 {
        lemma_texts_of_index(s.drop_first());
        assert(forall|i: int| 0 <= i < s.len() - 1 ==> #[trigger] s.drop_first()[i] == s[i + 1]);
    }
}

// Appending one more name to a joined list.
proof fn lemma_names_join_snoc(names: Seq<Seq<char>>, x: Seq<char>)
    ensures
        names_join(names.push(x)) == if names.len() == 0 {
            quoted(x)
        } else {
            names_join(names) + ", "@ + quoted(x)
        },
    decreases names.len(),
{
    let p = names.push(x);
    if names.len() == 0 {
        assert(p.len() == 1);
        assert(p[0] == x);
    } else {
        assert(p[0] == names[0]);
        assert(p.len() >= 2);
        assert(p.drop_first() =~= names.drop_first().push(x));
        lemma_names_join_snoc(names.drop_first(), x);
        if names.len() == 1 {
            assert(names.drop_first().len() == 0);
            assert(names_join(p) == quoted(p[0]) + ", "@ + quoted(x));
            assert(names_join(names) == quoted(names[0]));
        } else {
            assert(quoted(p[0]) + ", "@ + (names_join(names.drop_first()) + ", "@ + quoted(x))
                =~= (quoted(names[0]) + ", "@ + names_join(names.drop_first())) + ", "@
                + quoted(x));
        }
    }
}

// The namespaces granted under one target, as sorted strings.
#[verifier::loop_isolation(false)]
fn collect_namespaces(slots: &Vec<crate::capability::AbilityEntry>) -> (r: Vec<String>)
    ensures
        texts_of(r@) == collect_nss(spec_slots_of(slots@)),
{
    proof {
        crate::capability::lemma_spec_slots_of_index(slots@);
    }
    let n = slots.len();
    let mut out: Vec<String> = Vec::new();
    let mut q: usize = 0;
    proof {
        assert(texts_of(out@) =~= Seq::<Seq<char>>::empty());
        assert(spec_slots_of(slots@).take(0) =~= Seq::<SpecSlot>::empty());
    }
    while q < n
        invariant
            q <= n,
            texts_of(out@).len() == out@.len(),
            texts_of(out@) == collect_nss(spec_slots_of(slots@).take(q as int)),
            forall|q1: int, q2: int|
                0 <= q1 < q2 < texts_of(out@).len() ==> chars_lt(
                    #[trigger] texts_of(out@)[q1],
                    #[trigger] texts_of(out@)[q2],
                ),
        decreases n - q,
    {
        let ns = slots[q].ability().namespace().as_str();
        let ghost nss0 = texts_of(out@);
        let m = out.len();
        proof {
            lemma_texts_of_index(out@);
        }
        let mut j: usize = 0;
        while j < m && str_lt(out[j].as_str(), ns)
            invariant
                j <= m,
                m == out@.len(),
                texts_of(out@).len() == m,
                forall|k: int| 0 <= k < m ==> #[trigger] texts_of(out@)[k] == out@[k]@,
                nss0 == texts_of(out@),
                forall|k: int| 0 <= k < j ==> chars_lt(#[trigger] nss0[k], ns@),
            decreases m - j,
        {
            j = j + 1;
        }
        proof {
            lemma_insert_ns_at(nss0, ns@, j as int);
            lemma_insert_ns_sorted(nss0, ns@);
        }
        let present = j < m && str_eq(out[j].as_str(), ns);
        let ghost opre = out@;
        if !present {
            out.insert(j, ns.to_owned());
            proof {
                lemma_texts_of_index(out@);
                assert(texts_of(out@) =~= nss0.insert(j as int, ns@)) by {
                    assert(out@ =~= opre.insert(j as int, out@[j as int]));
                }
            }
        }
        proof {
            assert(texts_of(out@) == insert_ns(nss0, ns@));
            assert(spec_slots_of(slots@).take(q + 1).drop_last() =~= spec_slots_of(
                slots@,
            ).take(q as int));
            assert(spec_slots_of(slots@).take(q + 1).last() == slots@[q as int]@);
            assert(slots@[q as int]@.ability.0 == ns@);
        }
        q = q + 1;
    }
    proof {
        assert(spec_slots_of(slots@).take(n as int) =~= spec_slots_of(slots@));
    }
    out
}

// One clause for one namespace of one target.
#[verifier::loop_isolation(false)]
fn render_line(te: &crate::capability::TargetEntry, ns: &str) -> (r: String)
    ensures
        r@ == line_of(te@.target, ns@, names_for(te@.slots, ns@)),
{
    let mut joined = String::new();
    let slots = te.abilities();
    proof {
        crate::capability::lemma_spec_slots_of_index(slots@);
        assert(te@.slots.take(0) =~= Seq::<SpecSlot>::empty());
        assert(names_for(te@.slots.take(0), ns@) =~= Seq::<Seq<char>>::empty());
        assert(joined@ =~= names_join(names_for(te@.slots.take(0), ns@)));
    }
    let n = slots.len();
    let mut q: usize = 0;
    while q < n
        invariant
            q <= n,
            n == slots@.len(),
            spec_slots_of(slots@) == te@.slots,
            spec_slots_of(slots@).len() == n,
            forall|k: int| 0 <= k < n ==> #[trigger] spec_slots_of(slots@)[k] == slots@[k]@,
            joined@.len() == 0 <==> names_for(te@.slots.take(q as int), ns@).len() == 0,
            joined@ == names_join(names_for(te@.slots.take(q as int), ns@)),
        decreases n - q,
    {
        let ghost names_pre = names_for(te@.slots.take(q as int), ns@);
        proof {
            assert(te@.slots.take(q + 1).drop_last() =~= te@.slots.take(q as int));
            assert(te@.slots.take(q + 1).last() == slots@[q as int]@);
        }
        if str_eq(slots[q].ability().namespace().as_str(), ns) {
            proof {
                lemma_names_join_snoc(names_pre, slots@[q as int]@.ability.1);
                if names_pre.len() >= 1 {
                    assert(names_join(names_pre).len() >= 2) by {
                        if names_pre.len() == 1 {
                        }
                    }
                }
            }
            let sep_needed = !joined.as_str().is_empty();
            if sep_needed {
                joined.append(", ");
            }
            push_char(&mut joined, '\'');
            let name_str = slots[q].ability().name().as_str();
            joined.append(name_str);
            push_char(&mut joined, '\'');
            proof {
                assert(joined@ =~= names_join(names_for(te@.slots.take(q + 1), ns@)));
                assert(names_for(te@.slots.take(q + 1), ns@).len() == names_pre.len() + 1);
                assert(joined@.len() >= 2);
            }
        }
        q = q + 1;
    }
    proof {
        assert(te@.slots.take(n as int) =~= te@.slots);
    }
    let mut out = String::new();
    push_char(&mut out, '\'');
    out.append(ns);
    out.append("': ");
    out.append(joined.as_str());
    out.append(" for '");
    out.append(te.target().as_str());
    out.append("'.");
    proof {
        reveal_strlit("': ");
        reveal_strlit(": ");
        reveal_strlit(" for '");
        reveal_strlit(" for ");
        reveal_strlit("'.");
        reveal_strlit(".");
        assert(out@ =~= line_of(te@.target, ns@, names_for(te@.slots, ns@)));
    }
    out
}

impl Capability {
    /// The deterministic clause describing what this capability grants: a
    /// fixed preamble, then one numbered line per target and namespace.
    pub fn to_statement(&self) -> (r: String)
        ensures
            r@ == stmt_text(self@),
    {
        let atts = self.abilities();
        proof {
            crate::capability::lemma_spec_atts_of_index(atts@);
        }
        let ghost atts0 = spec_atts_of(atts@);
        let n = atts.len();
        let mut lines: Vec<String> = Vec::new();
        let mut i: usize = 0;
        proof {
            assert(texts_of(lines@) =~= Seq::<Seq<char>>::empty());
            assert(atts0.take(0) =~= Seq::<SpecTargetEntry>::empty());
            assert(stmt_lines(atts0.take(0)) =~= Seq::<Seq<char>>::empty());
        }
        while i < n
            invariant
                i <= n,
                n == atts@.len(),
                atts0 == spec_atts_of(atts@),
                atts0 == self@.atts,
                atts0.len() == n,
                forall|k: int| 0 <= k < n ==> #[trigger] atts0[k] == atts@[k]@,
                texts_of(lines@).len() == lines@.len(),
                texts_of(lines@) == stmt_lines(atts0.take(i as int)),
            decreases n - i,
        {
            let te = &atts[i];
            let nss = collect_namespaces(te.abilities());
            proof {
                lemma_texts_of_index(nss@);
            }
            let ghost nss0 = texts_of(nss@);
            let m = nss.len();
            let mut j: usize = 0;
            proof {
                assert(nss0.skip(0) =~= nss0);
            }
            while j < m
                invariant
                    j <= m,
                    m == nss@.len(),
                    nss0 == texts_of(nss@),
                    nss0.len() == m,
                    forall|k: int| 0 <= k < m ==> #[trigger] nss0[k] == nss@[k]@,
                    nss0 == collect_nss(te@.slots),
                    texts_of(lines@).len() == lines@.len(),
                    texts_of(lines@) + lines_for_nss(te@, nss0.skip(j as int)) == stmt_lines(
                        atts0.take(i as int),
                    ) + lines_for_nss(te@, nss0),
                decreases m - j,
            {
                let line = render_line(te, nss[j].as_str());
                let ghost lpre = lines@;
                lines.push(line);
                proof {
                    lemma_texts_of_index(lines@);
                    lemma_texts_of_index(lpre);
                    assert(texts_of(lines@) =~= texts_of(lpre).push(line@));
                    assert(nss0.skip(j as int)[0] == nss0[j as int]);
                    assert(nss0.skip(j as int).drop_first() =~= nss0.skip(j + 1));
                    assert(lines_for_nss(te@, nss0.skip(j as int)) == seq![line_of(
                        te@.target,
                        nss0[j as int],
                        names_for(te@.slots, nss0[j as int]),
                    )] + lines_for_nss(te@, nss0.skip(j + 1)));
                    assert(texts_of(lpre).push(line@) + lines_for_nss(te@, nss0.skip(j + 1))
                        =~= texts_of(lpre) + lines_for_nss(te@, nss0.skip(j as int)));
                }
                j = j + 1;
            }
            proof {
                assert(nss0.skip(m as int).len() == 0);
                assert(lines_for_nss(te@, nss0.skip(m as int)) =~= Seq::<Seq<char>>::empty());
                assert(texts_of(lines@) =~= stmt_lines(atts0.take(i as int)) + target_lines(
                    te@,
                ));
                assert(atts0.take(i + 1).drop_last() =~= atts0.take(i as int));
                assert(atts0.take(i + 1).last() == te@);
                lemma_stmt_lines_snoc(atts0, i as int);
            }
            i = i + 1;
        }
        proof {
            assert(atts0.take(n as int) =~= atts0);
        }
        let ghost all_lines = texts_of(lines@);
        proof {
            lemma_texts_of_index(lines@);
        }
        let mut out = String::from_str(
            "I further authorize the stated URI to perform the following actions on my behalf:",
        );
        proof {
            assert(all_lines.skip(0) =~= all_lines);
        }
        let ln = lines.len();
        let mut k: usize = 0;
        while k < ln
            invariant
                k <= ln,
                ln == lines@.len(),
                all_lines == texts_of(lines@),
                all_lines.len() == ln,
                forall|q: int| 0 <= q < ln ==> #[trigger] all_lines[q] == lines@[q]@,
                out@ + numbered(all_lines.skip(k as int), (k + 1) as nat) == preamble()
                    + numbered(all_lines, 1),
            decreases ln - k,
        {
            out.append(" (");
            let num = usize_to_string(k + 1);
            out.append(num.as_str());
            out.append(") ");
            out.append(lines[k].as_str());
            proof {
                assert(all_lines.skip(k as int)[0] == all_lines[k as int]);
                assert(all_lines.skip(k as int).drop_first() =~= all_lines.skip(k + 1));
                assert(numbered(all_lines.skip(k as int), (k + 1) as nat) == " ("@ + dec_str(
                    (k + 1) as nat,
                ) + ") "@ + all_lines[k as int] + numbered(all_lines.skip(k + 1), (k + 2) as nat));
            }
            k = k + 1;
        }
        proof {
            assert(all_lines.skip(ln as int).len() == 0);
            assert(numbered(all_lines.skip(ln as int), (ln + 1) as nat) =~= Seq::<char>::empty());
            assert(out@ + Seq::<char>::empty() =~= out@);
            assert(texts_of(lines@) == stmt_lines(self@.atts));
        }
        out
    }
}

// Cutting the clause list at a target boundary.
proof fn lemma_stmt_lines_snoc(atts: Seq<SpecTargetEntry>, i: int)
    requires
        0 <= i < atts.len(),
    ensures
        stmt_lines(atts.take(i + 1)) == stmt_lines(atts.take(i)) + target_lines(atts[i]),
    decreases i,
{
    if i == 0 {
        assert(atts.take(1).len() == 1);
        assert(atts.take(1)[0] == atts[0]);
        assert(atts.take(1).drop_first() =~= Seq::<SpecTargetEntry>::empty());
        assert(stmt_lines(Seq::<SpecTargetEntry>::empty()) =~= Seq::<Seq<char>>::empty());
        assert(atts.take(0) =~= Seq::<SpecTargetEntry>::empty());
        assert(target_lines(atts[0]) + Seq::<Seq<char>>::empty() =~= target_lines(atts[0]));
        assert(Seq::<Seq<char>>::empty() + target_lines(atts[0]) =~= target_lines(atts[0]));
    } else {
        let t1 = atts.take(i + 1);
        assert(t1[0] == atts[0]);
        assert(t1.drop_first() =~= atts.drop_first().take(i));
        lemma_stmt_lines_snoc(atts.drop_first(), i - 1);
        assert(forall|k: int| 0 <= k < atts.len() - 1 ==> #[trigger] atts.drop_first()[k]
            == atts[k + 1]);
        let t0 = atts.take(i);
        assert(t0[0] == atts[0]);
        assert(t0.drop_first() =~= atts.drop_first().take(i - 1));
        assert(target_lines(atts[0]) + (stmt_lines(atts.drop_first().take(i - 1))
            + target_lines(atts[i])) =~= (target_lines(atts[0]) + stmt_lines(
            atts.drop_first().take(i - 1),
        )) + target_lines(atts[i]));
    }
}

} // verus!
