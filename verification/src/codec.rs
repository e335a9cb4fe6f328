use vstd::prelude::*;

use crate::text::{chars_lt, dec_str, int_str, push_char, i64_to_string};
use crate::value::{SpecValue, Value, spec_value_of, spec_values_of, spec_fields_of, spec_value_wf};
use crate::value::{lemma_spec_values_of_index, lemma_spec_fields_of_index};

verus! {

// ---------------------------------------------------------------------------
// The canonical text form: a deterministic rendering of a tagged value.
// Object members are rendered in their stored (strictly ascending) key
// order; strings escape the quote, the backslash and the control characters,
// everything else is emitted verbatim; numbers are minimal decimal integers.
// ---------------------------------------------------------------------------

pub open spec fn hex_digit(d: int) -> char {
    if d == 0 { '0' }
    else if d == 1 { '1' }
    else if d == 2 { '2' }
    else if d == 3 { '3' }
    else if d == 4 { '4' }
    else if d == 5 { '5' }
    else if d == 6 { '6' }
    else if d == 7 { '7' }
    else if d == 8 { '8' }
    else if d == 9 { '9' }
    else if d == 10 { 'a' }
    else if d == 11 { 'b' }
    else if d == 12 { 'c' }
    else if d == 13 { 'd' }
    else if d == 14 { 'e' }
    else { 'f' }
}

pub open spec fn is_control(c: char) -> bool {
    (c as u32) < 0x20
}

// The escape of one character within a string literal.
pub open spec fn esc_char(c: char) -> Seq<char> {
    if c == '"' {
        seq!['\\', '"']
    } else if c == '\\' {
        seq!['\\', '\\']
    } else if c == '\u{8}' {
        seq!['\\', 'b']
    } else if c == '\u{9}' {
        seq!['\\', 't']
    } else if c == '\u{A}' {
        seq!['\\', 'n']
    } else if c == '\u{C}' {
        seq!['\\', 'f']
    } else if c == '\u{D}' {
        seq!['\\', 'r']
    } else if is_control(c) {
        seq!['\\', 'u', '0', '0', hex_digit((c as u32) as int / 16), hex_digit(
            (c as u32) as int % 16,
        )]
    } else {
        seq![c]
    }
}

pub open spec fn esc_body(s: Seq<char>) -> Seq<char>
    decreases s.len(),
{
    if s.len() == 0 {
        Seq::empty()
    } else {
        esc_char(s[0]) + esc_body(s.drop_first())
    }
}

pub open spec fn str_lit(s: Seq<char>) -> Seq<char> {
    seq!['"'] + esc_body(s) + seq!['"']
}

pub open spec fn jcs_value(v: SpecValue) -> Seq<char>
    decreases v,
{
    match v {
        SpecValue::Null => seq!['n', 'u', 'l', 'l'],
        SpecValue::Bool(b) => if b {
            seq!['t', 'r', 'u', 'e']
        } else {
            seq!['f', 'a', 'l', 's', 'e']
        },
        SpecValue::Int(i) => int_str(i),
        SpecValue::Text(s) => str_lit(s),
        SpecValue::Arr(items) => seq!['['] + jcs_arr_body(items) + seq![']'],
        SpecValue::Obj(fields) => seq!['{'] + jcs_obj_body(fields) + seq!['}'],
    }
}

pub open spec fn jcs_arr_body(s: Seq<SpecValue>) -> Seq<char>
    decreases s,
{
    if s.len() == 0 {
        Seq::empty()
    } else if s.len() == 1 {
        jcs_value(s[0])
    } else {
        jcs_value(s[0]) + seq![','] + jcs_arr_body(s.drop_first())
    }
}

pub open spec fn jcs_obj_entry(f: (Seq<char>, SpecValue)) -> Seq<char>
    decreases f,
{
    str_lit(f.0) + seq![':'] + jcs_value(f.1)
}

pub open spec fn jcs_obj_body(fields: Seq<(Seq<char>, SpecValue)>) -> Seq<char>
    decreases fields,
{
    if fields.len() == 0 {
        Seq::empty()
    } else if fields.len() == 1 {
        jcs_obj_entry(fields[0])
    } else {
        jcs_obj_entry(fields[0]) + seq![','] + jcs_obj_body(fields.drop_first())
    }
}

// ---------------------------------------------------------------------------
// Splitting the body renderings around an element boundary, for building
// them up one element at a time.
// ---------------------------------------------------------------------------

pub proof fn lemma_esc_body_concat(a: Seq<char>, b: Seq<char>)
    ensures
        esc_body(a + b) == esc_body(a) + esc_body(b),
    decreases a.len(),
{
    if a.len() == 0 {
        assert(a + b =~= b);
        assert(esc_body(a) + esc_body(b) =~= esc_body(b));
    } else {
        assert((a + b)[0] == a[0]);
        assert((a + b).drop_first() =~= a.drop_first() + b);
        lemma_esc_body_concat(a.drop_first(), b);
        assert(esc_char(a[0]) + (esc_body(a.drop_first()) + esc_body(b)) =~= (esc_char(a[0])
            + esc_body(a.drop_first())) + esc_body(b));
    }
}

pub proof fn lemma_esc_body_snoc(s: Seq<char>, k: int)
    requires
        0 <= k < s.len(),
    ensures
        esc_body(s.take(k + 1)) == esc_body(s.take(k)) + esc_char(s[k]),
{
    assert(s.take(k + 1) =~= s.take(k) + seq![s[k]]);
    lemma_esc_body_concat(s.take(k), seq![s[k]]);
    assert(esc_body(Seq::<char>::empty()) =~= Seq::<char>::empty());
    assert(esc_body(seq![s[k]]) =~= esc_char(s[k])) by {
        assert(seq![s[k]][0] == s[k]);
        assert(seq![s[k]].drop_first() =~= Seq::<char>::empty());
        assert(esc_char(s[k]) + Seq::<char>::empty() =~= esc_char(s[k]));
    }
}

pub proof fn lemma_arr_body_snoc(s: Seq<SpecValue>, j: int)
    requires
        0 <= j < s.len(),
    ensures
        jcs_arr_body(s.take(j + 1)) == if j == 0 {
            jcs_value(s[0])
        } else {
            jcs_arr_body(s.take(j)) + seq![','] + jcs_value(s[j])
        },
    decreases j,
{
    if j == 0 {
        assert(s.take(1).len() == 1);
        assert(s.take(1)[0] == s[0]);
    } else {
        let t = s.take(j + 1);
        assert(t.len() == j + 1 >= 2);
        assert(t[0] == s[0]);
        assert(t.drop_first() =~= s.drop_first().take(j));
        lemma_arr_body_snoc(s.drop_first(), j - 1);
        assert(forall|k: int| 0 <= k < s.len() - 1 ==> #[trigger] s.drop_first()[k] == s[k + 1]);
        if j == 1 {
            assert(s.take(1).len() == 1);
            assert(s.take(1)[0] == s[0]);
            assert(jcs_arr_body(s.take(1)) == jcs_value(s[0]));
        } else {
            assert(s.drop_first().take(j - 1) =~= s.take(j).drop_first());
            assert(s.take(j)[0] == s[0]);
            assert(s.take(j).len() == j >= 2);
            assert(jcs_value(s[0]) + seq![','] + (jcs_arr_body(s.take(j).drop_first())
                + seq![','] + jcs_value(s[j])) =~= (jcs_value(s[0]) + seq![','] + jcs_arr_body(
                s.take(j).drop_first(),
            )) + seq![','] + jcs_value(s[j]));
        }
    }
}

pub proof fn lemma_obj_body_snoc(s: Seq<(Seq<char>, SpecValue)>, j: int)
    requires
        0 <= j < s.len(),
    ensures
        jcs_obj_body(s.take(j + 1)) == if j == 0 {
            jcs_obj_entry(s[0])
        } else {
            jcs_obj_body(s.take(j)) + seq![','] + jcs_obj_entry(s[j])
        },
    decreases j,
{
    if j == 0 {
        assert(s.take(1).len() == 1);
        assert(s.take(1)[0] == s[0]);
    } else {
        let t = s.take(j + 1);
        assert(t.len() == j + 1 >= 2);
        assert(t[0] == s[0]);
        assert(t.drop_first() =~= s.drop_first().take(j));
        lemma_obj_body_snoc(s.drop_first(), j - 1);
        assert(forall|k: int| 0 <= k < s.len() - 1 ==> #[trigger] s.drop_first()[k] == s[k + 1]);
        if j == 1 {
            assert(s.take(1).len() == 1);
            assert(s.take(1)[0] == s[0]);
            assert(jcs_obj_body(s.take(1)) == jcs_obj_entry(s[0]));
        } else {
            assert(s.drop_first().take(j - 1) =~= s.take(j).drop_first());
            assert(s.take(j)[0] == s[0]);
            assert(s.take(j).len() == j >= 2);
            assert(jcs_obj_entry(s[0]) + seq![','] + (jcs_obj_body(s.take(j).drop_first())
                + seq![','] + jcs_obj_entry(s[j])) =~= (jcs_obj_entry(s[0]) + seq![',']
                + jcs_obj_body(s.take(j).drop_first())) + seq![','] + jcs_obj_entry(s[j]));
        }
    }
}

// ---------------------------------------------------------------------------
// The serializer.
// ---------------------------------------------------------------------------

fn hex_digit_char(d: u32) -> (c: char)
    requires
        d < 16,
    ensures
        c == hex_digit(d as int),
{
    if d == 0 { '0' }
    else if d == 1 { '1' }
    else if d == 2 { '2' }
    else if d == 3 { '3' }
    else if d == 4 { '4' }
    else if d == 5 { '5' }
    else if d == 6 { '6' }
    else if d == 7 { '7' }
    else if d == 8 { '8' }
    else if d == 9 { '9' }
    else if d == 10 { 'a' }
    else if d == 11 { 'b' }
    else if d == 12 { 'c' }
    else if d == 13 { 'd' }
    else if d == 14 { 'e' }
    else { 'f' }
}

// Appends the escape of one character.
fn write_escaped_char(c: char, out: &mut String)
    ensures
        final(out)@ == old(out)@ + esc_char(c),
{
    if c == '"' {
        push_char(out, '\\');
        push_char(out, '"');
    } else if c == '\\' {
        push_char(out, '\\');
        push_char(out, '\\');
    } else if c == '\u{8}' {
        push_char(out, '\\');
        push_char(out, 'b');
    } else if c == '\u{9}' {
        push_char(out, '\\');
        push_char(out, 't');
    } else if c == '\u{A}' {
        push_char(out, '\\');
        push_char(out, 'n');
    } else if c == '\u{C}' {
        push_char(out, '\\');
        push_char(out, 'f');
    } else if c == '\u{D}' {
        push_char(out, '\\');
        push_char(out, 'r');
    } else if (c as u32) < 0x20 {
        push_char(out, '\\');
        push_char(out, 'u');
        push_char(out, '0');
        push_char(out, '0');
        push_char(out, hex_digit_char((c as u32) / 16));
        push_char(out, hex_digit_char((c as u32) % 16));
    } else {
        push_char(out, c);
    }
    proof {
        assert(final(out)@ =~= old(out)@ + esc_char(c));
    }
}

// Appends a quoted, escaped string literal.
#[verifier::loop_isolation(false)]
pub fn write_str_lit(s: &str, out: &mut String)
    ensures
        final(out)@ == old(out)@ + str_lit(s@),
{
    push_char(out, '"');
    let n = s.unicode_len();
    let mut i: usize = 0;
    proof {
        assert(s@.take(0) =~= Seq::<char>::empty());
    }
    while i < n
        invariant
            i <= n,
            out@ == old(out)@ + seq!['"'] + esc_body(s@.take(i as int)),
        decreases n - i,
    {
        write_escaped_char(s.get_char(i), out);
        proof {
            lemma_esc_body_snoc(s@, i as int);
            assert(old(out)@ + seq!['"'] + (esc_body(s@.take(i as int)) + esc_char(s@[i as int]))
                =~= (old(out)@ + seq!['"'] + esc_body(s@.take(i as int))) + esc_char(
                s@[i as int],
            ));
        }
        i = i + 1;
    }
    push_char(out, '"');
    proof {
        assert(s@.take(n as int) =~= s@);
        assert(final(out)@ =~= old(out)@ + str_lit(s@));
    }
}

// Appends the canonical text of a value.
#[verifier::loop_isolation(false)]
pub fn write_value(v: &Value, out: &mut String)
    ensures
        final(out)@ == old(out)@ + jcs_value(v@),
    decreases *v,
{
    match v {
        Value::Null => {
            out.append("null");
            proof {
                reveal_strlit("null");
                assert(final(out)@ =~= old(out)@ + jcs_value(v@));
            }
        },
        Value::Bool(b) => {
            if *b {
                out.append("true");
                proof {
                    reveal_strlit("true");
                    assert(final(out)@ =~= old(out)@ + jcs_value(v@));
                }
            } else {
                out.append("false");
                proof {
                    reveal_strlit("false");
                    assert(final(out)@ =~= old(out)@ + jcs_value(v@));
                }
            }
        },
        Value::Int(i) => {
            let t = i64_to_string(*i);
            out.append(t.as_str());
        },
        Value::Text(s) => {
            write_str_lit(s.as_str(), out);
        },
        Value::Arr(items) => {
            proof {
                lemma_spec_values_of_index(items@);
            }
            push_char(out, '[');
            let ghost sv = spec_values_of(items@);
            let n = items.len();
            let mut j: usize = 0;
            proof {
                assert(sv.take(0) =~= Seq::<SpecValue>::empty());
            }
            while j < n
                invariant
                    j <= n,
                    out@ == old(out)@ + seq!['['] + jcs_arr_body(sv.take(j as int)),
                decreases n - j,
            {
                if j > 0 {
                    push_char(out, ',');
                }
                proof {
                    assert(decreases_to!(*v => (*v)->Arr_0));
                    assert(decreases_to!((*v)->Arr_0 => items@));
                    assert(decreases_to!(items@ => items@[j as int]));
                }
                write_value(&items[j], out);
                proof {
                    lemma_arr_body_snoc(sv, j as int);
                    assert(sv[j as int] == items@[j as int]@);
                    if j == 0 {
                        assert(out@ =~= old(out)@ + seq!['['] + jcs_arr_body(
                            sv.take(j + 1),
                        ));
                    } else {
                        assert(out@ =~= old(out)@ + seq!['['] + jcs_arr_body(
                            sv.take(j + 1),
                        ));
                    }
                }
                j = j + 1;
            }
            push_char(out, ']');
            proof {
                assert(sv.take(n as int) =~= sv);
                assert(final(out)@ =~= old(out)@ + jcs_value(v@));
            }
        },
        Value::Obj(fields) => {
            proof {
                lemma_spec_fields_of_index(fields@);
            }
            push_char(out, '{');
            let ghost sf = spec_fields_of(fields@);
            let n = fields.len();
            let mut j: usize = 0;
            proof {
                assert(sf.take(0) =~= Seq::<(Seq<char>, SpecValue)>::empty());
            }
            while j < n
                invariant
                    j <= n,
                    out@ == old(out)@ + seq!['{'] + jcs_obj_body(sf.take(j as int)),
                decreases n - j,
            {
                if j > 0 {
                    push_char(out, ',');
                }
                write_str_lit(fields[j].0.as_str(), out);
                push_char(out, ':');
                proof {
                    assert(decreases_to!(*v => (*v)->Obj_0));
                    assert(decreases_to!((*v)->Obj_0 => fields@));
                    assert(decreases_to!(fields@ => fields@[j as int]));
                    assert(decreases_to!(fields@[j as int] => fields@[j as int].1));
                }
                write_value(&fields[j].1, out);
                proof {
                    lemma_obj_body_snoc(sf, j as int);
                    assert(sf[j as int] == (fields@[j as int].0@, fields@[j as int].1@));
                    assert(jcs_obj_entry(sf[j as int]) =~= str_lit(fields@[j as int].0@)
                        + seq![':'] + jcs_value(fields@[j as int].1@));
                    assert(out@ =~= old(out)@ + seq!['{'] + jcs_obj_body(sf.take(j + 1)));
                }
                j = j + 1;
            }
            push_char(out, '}');
            proof {
                assert(sf.take(n as int) =~= sf);
                assert(final(out)@ =~= old(out)@ + jcs_value(v@));
            }
        },
    }
}

// Renders a value as its canonical text.
pub fn value_to_text(v: &Value) -> (r: String)
    ensures
        r@ == jcs_value(v@),
{
    let mut out = String::new();
    write_value(v, &mut out);
    out
}

// ---------------------------------------------------------------------------
// The parser.  It accepts exactly the canonical texts: every successful
// parse returns a canonical value whose rendering is the consumed span, and
// on any input that carries a canonical rendering it returns that value.
// ---------------------------------------------------------------------------

pub open spec fn matches_at(s: Seq<char>, i: int, t: Seq<char>) -> bool {
    0 <= i && i + t.len() <= s.len() && s.subrange(i, i + t.len()) == t
}

pub proof fn lemma_matches_at_index(s: Seq<char>, i: int, t: Seq<char>)
    requires
        matches_at(s, i, t),
    ensures
        forall|k: int| 0 <= k < t.len() ==> s[i + k] == #[trigger] t[k],
{
    assert forall|k: int| 0 <= k < t.len() implies s[i + k] == #[trigger] t[k] by {
        assert(s.subrange(i, i + t.len())[k] == s[i + k]);
    }
}

pub proof fn lemma_matches_at_concat(s: Seq<char>, i: int, a: Seq<char>, b: Seq<char>)
    requires
        0 <= i,
    ensures
        matches_at(s, i, a + b) == (matches_at(s, i, a) && matches_at(s, i + a.len(), b)),
{
    if matches_at(s, i, a + b) {
        assert(s.subrange(i, i + a.len()) =~= (a + b).subrange(0, a.len() as int)) by {
            assert(forall|k: int| 0 <= k < a.len() ==> s.subrange(
                i,
                i + (a + b).len(),
            )[k] == #[trigger] s.subrange(i, i + a.len())[k]);
        }
        assert((a + b).subrange(0, a.len() as int) =~= a);
        assert(s.subrange(i + a.len(), i + a.len() + b.len()) =~= b) by {
            assert(forall|k: int| 0 <= k < b.len() ==> s.subrange(
                i,
                i + (a + b).len(),
            )[a.len() + k] == #[trigger] s.subrange(i + a.len(), i + a.len() + b.len())[k]);
            assert(forall|k: int| 0 <= k < b.len() ==> (a + b)[a.len() + k] == #[trigger] b[k]);
        }
    }
    if matches_at(s, i, a) && matches_at(s, i + a.len(), b) {
        assert(s.subrange(i, i + (a + b).len()) =~= a + b) by {
            assert(forall|k: int| 0 <= k < a.len() ==> s.subrange(i, i + a.len())[k]
                == #[trigger] a[k]);
            assert(forall|k: int| 0 <= k < b.len() ==> s.subrange(
                i + a.len(),
                i + a.len() + b.len(),
            )[k] == #[trigger] b[k]);
        }
    }
}

// What may follow a complete value: the end of the input or a closing
// delimiter of the enclosing structure.
pub open spec fn follow_ok(s: Seq<char>, j: int) -> bool {
    j == s.len() || s[j] == ',' || s[j] == ']' || s[j] == '}'
}

pub open spec fn is_digit(c: char) -> bool {
    48 <= (c as u32) <= 57
}

pub open spec fn digit_val(c: char) -> int {
    (c as u32) - 48
}

pub open spec fn digits_val(ds: Seq<char>) -> int
    decreases ds.len(),
{
    if ds.len() == 0 {
        0
    } else {
        digits_val(ds.drop_last()) * 10 + digit_val(ds.last())
    }
}

proof fn lemma_digit_char_id(d: int)
    requires
        0 <= d <= 9,
    ensures
        is_digit(crate::text::digit_char(d)),
        digit_val(crate::text::digit_char(d)) == d,
{
}

proof fn lemma_digit_char_inverse(c: char)
    requires
        is_digit(c),
    ensures
        crate::text::digit_char(digit_val(c)) == c,
        0 <= digit_val(c) <= 9,
{
    let u = c as u32;
    vstd::utf8::char_u32_cast(c, u);
    if u == 48 { assert(('0' as u32) == 48); assert(c == '0'); }
    else if u == 49 { assert(c == '1'); }
    else if u == 50 { assert(c == '2'); }
    else if u == 51 { assert(c == '3'); }
    else if u == 52 { assert(c == '4'); }
    else if u == 53 { assert(c == '5'); }
    else if u == 54 { assert(c == '6'); }
    else if u == 55 { assert(c == '7'); }
    else if u == 56 { assert(c == '8'); }
    else { assert(u == 57); assert(c == '9'); }
}

pub proof fn lemma_dec_str_props(n: nat)
    ensures
        dec_str(n).len() >= 1,
        forall|k: int| 0 <= k < dec_str(n).len() ==> is_digit(#[trigger] dec_str(n)[k]),
        digits_val(dec_str(n)) == n,
        n >= 10 ==> dec_str(n).len() >= 2,
        (dec_str(n)[0] == '0') == (n == 0),
    decreases n,
{
    if n < 10 {
        lemma_digit_char_id(n as int);
        assert(dec_str(n) =~= seq![crate::text::digit_char(n as int)]);
        assert(dec_str(n).drop_last() =~= Seq::<char>::empty());
        assert(digits_val(Seq::<char>::empty()) == 0);
        if n == 0 {
            assert(crate::text::digit_char(0) == '0');
        } else {
            assert(crate::text::digit_char(n as int) != '0');
        }
    } else {
        lemma_dec_str_props(n / 10);
        lemma_digit_char_id((n % 10) as int);
        let a = dec_str(n / 10);
        let d = crate::text::digit_char((n % 10) as int);
        assert(dec_str(n) == a.push(d));
        assert(a.push(d).drop_last() =~= a);
        assert(a.push(d).last() == d);
        assert(digits_val(dec_str(n)) == (n / 10) * 10 + (n % 10));
        assert((n / 10) * 10 + (n % 10) == n) by (nonlinear_arith);
        assert(dec_str(n)[0] == a[0]);
        assert(forall|k: int| 0 <= k < a.len() ==> a.push(d)[k] == #[trigger] a[k]);
    }
}

// A digit string without a superfluous leading zero is the canonical
// rendering of its value.
pub proof fn lemma_canonical_digits(ds: Seq<char>)
    requires
        ds.len() >= 1,
        forall|k: int| 0 <= k < ds.len() ==> is_digit(#[trigger] ds[k]),
        ds.len() > 1 ==> ds[0] != '0',
    ensures
        digits_val(ds) >= 0,
        ds.len() > 1 ==> digits_val(ds) >= 10,
        dec_str(digits_val(ds) as nat) == ds,
    decreases ds.len(),
{
    if ds.len() == 1 {
        lemma_digit_char_inverse(ds[0]);
        assert(ds.drop_last() =~= Seq::<char>::empty());
        assert(digits_val(Seq::<char>::empty()) == 0);
        assert(digits_val(ds) == digit_val(ds[0]));
        assert(dec_str(digits_val(ds) as nat) =~= ds);
    } else {
        let a = ds.drop_last();
        let c = ds.last();
        lemma_digit_char_inverse(c);
        assert(forall|k: int| 0 <= k < a.len() ==> a[k] == #[trigger] ds[k]);
        lemma_canonical_digits(a);
        let va = digits_val(a);
        let v = digits_val(ds);
        assert(v == va * 10 + digit_val(c));
        if a.len() == 1 {
            assert(a[0] == ds[0]);
            assert(a[0] != '0');
            lemma_digit_char_inverse(a[0]);
            assert(a.drop_last() =~= Seq::<char>::empty());
            assert(digits_val(Seq::<char>::empty()) == 0);
            assert(va == digit_val(a[0]));
            assert(va >= 1);
        } else {
            assert(va >= 10);
        }
        assert(v >= 10) by (nonlinear_arith)
            requires va >= 1, digit_val(c) >= 0, v == va * 10 + digit_val(c);
        assert(v / 10 == va && v % 10 == digit_val(c)) by (nonlinear_arith)
            requires v == va * 10 + digit_val(c), 0 <= digit_val(c) <= 9, va >= 0;
        assert(dec_str(v as nat) == dec_str(va as nat).push(crate::text::digit_char(v % 10)));
        assert(dec_str(v as nat) =~= ds);
    }
}

// The value of a digit string grows along its prefixes.
proof fn lemma_digits_val_monotonic(ds: Seq<char>, k: int)
    requires
        0 <= k <= ds.len(),
        forall|t: int| 0 <= t < ds.len() ==> is_digit(#[trigger] ds[t]),
    ensures
        0 <= digits_val(ds.take(k)) <= digits_val(ds),
    decreases ds.len() - k,
{
    if k == ds.len() {
        assert(ds.take(k) =~= ds);
        lemma_digits_val_nonneg(ds);
    } else {
        lemma_digits_val_monotonic(ds, k + 1);
        let p = ds.take(k + 1);
        assert(p.drop_last() =~= ds.take(k));
        assert(p.last() == ds[k]);
        lemma_digits_val_nonneg(ds.take(k));
        assert(digits_val(ds.take(k)) <= digits_val(p)) by (nonlinear_arith)
            requires
                digits_val(p) == digits_val(ds.take(k)) * 10 + digit_val(ds[k]),
                digits_val(ds.take(k)) >= 0,
                digit_val(ds[k]) >= 0,
        ;
    }
}

fn exec_is_digit(c: char) -> (r: bool)
    ensures
        r == is_digit(c),
{
    let u = c as u32;
    48 <= u && u <= 57
}

// Where the sign and the digits of a rendered integer lie in the input.
proof fn lemma_int_witness(s: Seq<char>, i: int, n: int)
    requires
        matches_at(s, i, int_str(n)),
    ensures
        n < 0 ==> s[i] == '-',
        n >= 0 ==> is_digit(s[i]) && s[i] == dec_str(n as nat)[0],
        ({
            let m: nat = if n < 0 { (-n) as nat } else { n as nat };
            let dstart: int = if n < 0 { i + 1 } else { i };
            &&& i + int_str(n).len() == dstart + dec_str(m).len()
            &&& matches_at(s, dstart, dec_str(m))
            &&& s[dstart] == dec_str(m)[0]
            &&& forall|k: int| dstart <= k < dstart + dec_str(m).len() ==> is_digit(s[k])
        }),
{
    let m: nat = if n < 0 { (-n) as nat } else { n as nat };
    let dstart: int = if n < 0 { i + 1 } else { i };
    lemma_dec_str_props(m);
    if n < 0 {
        assert(int_str(n) == seq!['-'] + dec_str(m));
        lemma_matches_at_concat(s, i, seq!['-'], dec_str(m));
        lemma_matches_at_index(s, i, seq!['-']);
        assert(s[i] == seq!['-'][0]);
    } else {
        assert(int_str(n) == dec_str(m));
    }
    lemma_matches_at_index(s, dstart, dec_str(m));
    assert forall|k: int| dstart <= k < dstart + dec_str(m).len() implies is_digit(s[k]) by {
        assert(s[dstart + (k - dstart)] == dec_str(m)[k - dstart]);
    }
    assert(s[dstart + 0] == dec_str(m)[0]);
}

// Reads a canonical integer: an optional minus sign, then minimal decimal
// digits, never a superfluous leading zero and never a bare minus.
fn parse_int(s: &str, i: usize) -> (r: Option<(i64, usize)>)
    requires
        i <= s@.len(),
    ensures
        r matches Some((n, j)) ==> i < j <= s@.len() && s@.subrange(i as int, j as int)
            == int_str(n as int),
        forall|n: int|
            i64::MIN <= n <= i64::MAX && matches_at(s@, i as int, #[trigger] int_str(n))
                && follow_ok(s@, i + int_str(n).len()) ==> r == Some(
                (n as i64, (i + int_str(n).len()) as usize),
            ),
{
    let len = s.unicode_len();
    if i == len {
        proof {
            assert forall|n: int|
                i64::MIN <= n <= i64::MAX && matches_at(s@, i as int, #[trigger] int_str(n))
                    && follow_ok(s@, i + int_str(n).len()) implies false by {
                lemma_dec_str_props(if n < 0 { (-n) as nat } else { n as nat });
            }
        }
        return None;
    }
    let neg = s.get_char(i) == '-';
    let start = if neg { i + 1 } else { i };
    let mut p = start;
    let mut mag: u64 = 0;
    proof {
        assert(s@.subrange(start as int, start as int) =~= Seq::<char>::empty());
        assert(digits_val(Seq::<char>::empty()) == 0);
    }
    loop
        invariant
            i <= s@.len(),
            len == s@.len(),
            start <= p <= len,
            i <= start <= i + 1,
            neg ==> start == i + 1 && i < len && s@[i as int] == '-',
            !neg ==> start == i,
            mag == digits_val(s@.subrange(start as int, p as int)),
            forall|k: int| start <= k < p ==> is_digit(s@[k]),
        ensures
            i <= s@.len(),
            len == s@.len(),
            start <= p <= len,
            i <= start <= i + 1,
            neg ==> start == i + 1 && i < len && s@[i as int] == '-',
            !neg ==> start == i,
            mag == digits_val(s@.subrange(start as int, p as int)),
            forall|k: int| start <= k < p ==> is_digit(s@[k]),
            p == len || !is_digit(s@[p as int]),
        decreases len - p,
    {
        if p == len {
            break;
        }
        let c = s.get_char(p);
        if !exec_is_digit(c) {
            break;
        }
        let d: u64 = ((c as u32) - 48) as u64;
        if mag > (u64::MAX - d) / 10 {
            // The digit run exceeds the machine range; no canonical integer
            // this long fits, so nothing renders here.
            proof {
                assert forall|n: int|
                    i64::MIN <= n <= i64::MAX && matches_at(
                        s@,
                        i as int,
                        #[trigger] int_str(n),
                    ) && follow_ok(s@, i + int_str(n).len()) implies false by {
                    let m: nat = if n < 0 { (-n) as nat } else { n as nat };
                    let dstart: int = if n < 0 { i + 1 } else { i as int };
                    lemma_int_witness(s@, i as int, n);
                    lemma_dec_str_props(m);
                    assert(dstart == start);
                    let dend = dstart + dec_str(m).len();
                    // the scan cannot have passed the end of the digits
                    assert(p + 1 <= dend) by {
                        if p >= dend {
                            assert(follow_ok(s@, dend));
                            assert(dend < len);
                            assert(is_digit(s@[dend]));
                        }
                    }
                    // the run value so far is bounded by the whole value
                    assert(s@.subrange(start as int, p + 1) =~= dec_str(m).take(
                        p + 1 - start,
                    )) by {
                        lemma_matches_at_index(s@, dstart, dec_str(m));
                    }
                    lemma_digits_val_monotonic(dec_str(m), p + 1 - start);
                    assert(s@.subrange(start as int, p + 1).drop_last() =~= s@.subrange(
                        start as int,
                        p as int,
                    ));
                    assert(s@.subrange(start as int, p + 1).last() == s@[p as int]);
                    assert(digits_val(s@.subrange(start as int, p + 1)) == mag * 10 + d);
                    assert(m <= 0x8000000000000000) by {
                        assert(i64::MIN <= n <= i64::MAX);
                    }
                    assert(mag * 10 + d <= m);
                    assert(mag <= (u64::MAX - d) / 10) by (nonlinear_arith)
                        requires
                            mag * 10 + d <= 0x8000000000000000u64,
                            d <= 9,
                    ;
                }
            }
            return None;
        }
        proof {
            assert(s@.subrange(start as int, p + 1).drop_last() =~= s@.subrange(
                start as int,
                p as int,
            ));
            assert(s@.subrange(start as int, p + 1).last() == s@[p as int]);
            assert(digit_val(s@[p as int]) == d);
        }
        mag = mag * 10 + d;
        p = p + 1;
    }
    let ghost ds = s@.subrange(start as int, p as int);
    if p == start {
        // no digits at all
        proof {
            assert forall|n: int|
                i64::MIN <= n <= i64::MAX && matches_at(s@, i as int, #[trigger] int_str(n))
                    && follow_ok(s@, i + int_str(n).len()) implies false by {
                let m: nat = if n < 0 { (-n) as nat } else { n as nat };
                lemma_int_witness(s@, i as int, n);
                lemma_dec_str_props(m);
                if n < 0 {
                    assert(is_digit(s@[start as int]));
                } else {
                    assert(is_digit(s@[i as int]));
                    assert(s@[i as int] != '-');
                    assert(!neg);
                }
            }
        }
        return None;
    }
    let first = s.get_char(start);
    proof {
        lemma_matches_at_index(s@, start as int, ds);
        assert(matches_at(s@, start as int, ds)) by {
            assert(s@.subrange(start as int, p as int) =~= ds);
        }
        assert(ds[0] == s@[start as int]);
    }
    if first == '0' && p > start + 1 {
        // a leading zero is not canonical
        proof {
            assert forall|n: int|
                i64::MIN <= n <= i64::MAX && matches_at(s@, i as int, #[trigger] int_str(n))
                    && follow_ok(s@, i + int_str(n).len()) implies false by {
                let m: nat = if n < 0 { (-n) as nat } else { n as nat };
                let dstart: int = if n < 0 { i + 1 } else { i as int };
                lemma_int_witness(s@, i as int, n);
                lemma_dec_str_props(m);
                assert(dstart == start);
                assert(s@[start as int] == dec_str(m)[0]);
                assert(m == 0);
                let dend = dstart + dec_str(m).len();
                assert(dend == start + 1);
                assert(is_digit(s@[dend]));
                assert(follow_ok(s@, dend));
                assert(dend < len);
            }
        }
        return None;
    }
    if neg && first == '0' {
        // a negative zero, or a zero-led negative, is not canonical
        proof {
            assert forall|n: int|
                i64::MIN <= n <= i64::MAX && matches_at(s@, i as int, #[trigger] int_str(n))
                    && follow_ok(s@, i + int_str(n).len()) implies false by {
                let m: nat = if n < 0 { (-n) as nat } else { n as nat };
                lemma_int_witness(s@, i as int, n);
                lemma_dec_str_props(m);
                if n >= 0 {
                    assert(is_digit(s@[i as int]));
                    assert(s@[i as int] != '-');
                } else {
                    assert(m > 0);
                    assert(dec_str(m)[0] != '0');
                    assert(s@[start as int] == dec_str(m)[0]);
                }
            }
        }
        return None;
    }
    proof {
        lemma_canonical_digits(ds);
        assert(dec_str(mag as nat) == ds);
    }
    // For any integer rendered here, its digits are exactly the run we read.
    proof {
        assert forall|n: int|
            i64::MIN <= n <= i64::MAX && matches_at(s@, i as int, #[trigger] int_str(n))
                && follow_ok(s@, i + int_str(n).len()) implies ({
            let m: nat = if n < 0 { (-n) as nat } else { n as nat };
            (if n < 0 { neg } else { !neg }) && m == mag && i + int_str(n).len() == p
        }) by {
            let m: nat = if n < 0 { (-n) as nat } else { n as nat };
            let dstart: int = if n < 0 { i + 1 } else { i as int };
            lemma_int_witness(s@, i as int, n);
            lemma_dec_str_props(m);
            if n >= 0 {
                assert(s@[i as int] != '-');
                assert(!neg);
            }
            assert(dstart == start);
            let dend = dstart + dec_str(m).len();
            // the scan covers all the digits and stops right after them
            assert(p >= dend) by {
                if p < dend {
                    assert(is_digit(s@[p as int])) by {
                        lemma_matches_at_index(s@, dstart, dec_str(m));
                    }
                    assert(p < len);
                }
            }
            assert(p <= dend) by {
                if p > dend {
                    assert(is_digit(s@[dend]));
                    assert(follow_ok(s@, dend));
                    assert(dend < len);
                }
            }
            assert(ds =~= dec_str(m)) by {
                lemma_matches_at_index(s@, dstart, dec_str(m));
            }
            assert(digits_val(dec_str(m)) == m);
            assert(m == mag);
        }
    }
    if neg {
        if mag > 9223372036854775808u64 {
            proof {
                assert forall|n: int|
                    i64::MIN <= n <= i64::MAX && matches_at(
                        s@,
                        i as int,
                        #[trigger] int_str(n),
                    ) && follow_ok(s@, i + int_str(n).len()) implies false by {
                    let m: nat = if n < 0 { (-n) as nat } else { n as nat };
                    assert(m == mag);
                    assert(m <= 0x8000000000000000);
                }
            }
            return None;
        }
        let n: i64 = (-(mag as i128)) as i64;
        proof {
            assert(n as int == -(mag as int));
            assert(s@.subrange(i as int, p as int) =~= seq!['-'] + ds);
            assert(int_str(n as int) == seq!['-'] + dec_str(mag as nat));
        }
        Some((n, p))
    } else {
        if mag > 9223372036854775807u64 {
            proof {
                assert forall|n: int|
                    i64::MIN <= n <= i64::MAX && matches_at(
                        s@,
                        i as int,
                        #[trigger] int_str(n),
                    ) && follow_ok(s@, i + int_str(n).len()) implies false by {
                    let m: nat = if n < 0 { (-n) as nat } else { n as nat };
                    assert(m == mag);
                    if n < 0 {
                        assert(s@[i as int] == '-');
                        assert(is_digit(s@[i as int]));
                    }
                }
            }
            return None;
        }
        let n: i64 = mag as i64;
        proof {
            assert(int_str(n as int) == dec_str(mag as nat));
        }
        Some((n, p))
    }
}

// The shapes an escape can take, and what each shape reveals about the
// escaped character.
proof fn lemma_esc_char_shape(c: char)
    ensures
        esc_char(c).len() == 1 || esc_char(c).len() == 2 || esc_char(c).len() == 6,
        (esc_char(c).len() == 1) == !(c == '"' || c == '\\' || is_control(c)),
        esc_char(c).len() == 1 ==> esc_char(c) == seq![c],
        esc_char(c).len() >= 2 ==> esc_char(c)[0] == '\\',
        esc_char(c).len() == 2 ==> ((c == '"' && esc_char(c)[1] == '"') || (c == '\\'
            && esc_char(c)[1] == '\\') || (c == '\u{8}' && esc_char(c)[1] == 'b') || (c
            == '\u{9}' && esc_char(c)[1] == 't') || (c == '\u{A}' && esc_char(c)[1] == 'n') || (
        c == '\u{C}' && esc_char(c)[1] == 'f') || (c == '\u{D}' && esc_char(c)[1] == 'r')),
        esc_char(c).len() == 6 ==> is_control(c) && c != '\u{8}' && c != '\u{9}' && c != '\u{A}'
            && c != '\u{C}' && c != '\u{D}' && esc_char(c)[1] == 'u' && esc_char(c)[2] == '0'
            && esc_char(c)[3] == '0' && esc_char(c)[4] == hex_digit((c as u32) as int / 16)
            && esc_char(c)[5] == hex_digit((c as u32) as int % 16),
{
    if c == '"' || c == '\\' {
    } else if c == '\u{8}' || c == '\u{9}' || c == '\u{A}' || c == '\u{C}' || c == '\u{D}' {
        assert(is_control(c));
    } else if is_control(c) {
    } else {
    }
}

proof fn lemma_esc_body_first(x: Seq<char>)
    requires
        x.len() > 0,
    ensures
        esc_body(x).len() >= 1,
        esc_body(x)[0] == esc_char(x[0])[0],
    decreases x.len(),
{
    lemma_esc_char_shape(x[0]);
}

// Where the remainder of a string literal lies, after some of its
// characters have been read.
proof fn lemma_str_witness_at(s: Seq<char>, i: int, t: Seq<char>, k: int)
    requires
        matches_at(s, i, str_lit(t)),
        0 <= k <= t.len(),
    ensures
        matches_at(s, i + 1 + esc_body(t.take(k)).len(), esc_body(t.skip(k)) + seq!['"']),
        esc_body(t) == esc_body(t.take(k)) + esc_body(t.skip(k)),
{
    assert(t =~= t.take(k) + t.skip(k));
    lemma_esc_body_concat(t.take(k), t.skip(k));
    assert(str_lit(t) =~= seq!['"'] + (esc_body(t.take(k)) + (esc_body(t.skip(k))
        + seq!['"'])));
    lemma_matches_at_concat(s, i, seq!['"'], esc_body(t.take(k)) + (esc_body(t.skip(k))
        + seq!['"']));
    lemma_matches_at_concat(s, i + 1, esc_body(t.take(k)), esc_body(t.skip(k)) + seq!['"']);
}

fn hex_val(c: char) -> (r: Option<u32>)
    ensures
        r matches Some(v) ==> v < 16 && hex_digit(v as int) == c,
        r is None ==> forall|v: int| 0 <= v < 16 ==> hex_digit(v) != c,
{
    if c == '0' { Some(0) }
    else if c == '1' { Some(1) }
    else if c == '2' { Some(2) }
    else if c == '3' { Some(3) }
    else if c == '4' { Some(4) }
    else if c == '5' { Some(5) }
    else if c == '6' { Some(6) }
    else if c == '7' { Some(7) }
    else if c == '8' { Some(8) }
    else if c == '9' { Some(9) }
    else if c == 'a' { Some(10) }
    else if c == 'b' { Some(11) }
    else if c == 'c' { Some(12) }
    else if c == 'd' { Some(13) }
    else if c == 'e' { Some(14) }
    else if c == 'f' { Some(15) }
    else { None }
}

/// Relies on char::from_u32: every value below the surrogate range is a
/// unicode scalar, for which it returns the character with that value.
#[verifier::external_body]
fn char_from_u32(v: u32) -> (r: char)
    requires
        v < 0xD800,
    ensures
        (r as u32) == v,
{
    char::from_u32(v).unwrap()
}

proof fn lemma_hex_digit_injective(x: int, y: int)
    requires
        0 <= x < 16,
        0 <= y < 16,
        hex_digit(x) == hex_digit(y),
    ensures
        x == y,
{
}

// The facts a rendered string pins down when a numeric escape starts at p.
proof fn lemma_unicode_witness(s: Seq<char>, i: int, p: int, accv: Seq<char>, t: Seq<char>)
    requires
        i < p < s.len(),
        s[p] == '\\',
        p + 1 < s.len(),
        s[p + 1] == 'u',
        s.subrange(i + 1, p) == esc_body(accv),
        matches_at(s, i, str_lit(t)),
        accv.len() <= t.len(),
        t.take(accv.len() as int) == accv,
    ensures
        ({
            let k = accv.len() as int;
            let c = t.skip(k)[0];
            &&& t.skip(k).len() > 0
            &&& is_control(c)
            &&& esc_char(c).len() == 6
            &&& matches_at(s, p, esc_char(c))
            &&& p + 6 <= s.len()
            &&& s[p + 2] == '0'
            &&& s[p + 3] == '0'
            &&& s[p + 4] == hex_digit((c as u32) as int / 16)
            &&& s[p + 5] == hex_digit((c as u32) as int % 16)
        }),
{
    let k = accv.len() as int;
    lemma_str_witness_at(s, i, t, k);
    assert(p == i + 1 + esc_body(t.take(k)).len());
    assert(matches_at(s, p, esc_body(t.skip(k)) + seq!['"']));
    lemma_matches_at_index(s, p, esc_body(t.skip(k)) + seq!['"']);
    if t.skip(k).len() == 0 {
        assert(s[p] == (esc_body(t.skip(k)) + seq!['"'])[0]);
        assert(false);
    }
    let c = t.skip(k)[0];
    lemma_esc_body_first(t.skip(k));
    lemma_esc_char_shape(c);
    assert(s[p] == (esc_body(t.skip(k)) + seq!['"'])[0]);
    assert((esc_body(t.skip(k)) + seq!['"'])[0] == esc_body(t.skip(k))[0]);
    assert(s[p] == esc_char(c)[0]);
    assert(esc_char(c).len() >= 2) by {
        if esc_char(c).len() == 1 {
            assert(esc_char(c)[0] == c);
        }
    }
    assert(esc_body(t.skip(k)) == esc_char(c) + esc_body(t.skip(k).drop_first()));
    lemma_matches_at_concat(s, p, esc_body(t.skip(k)), seq!['"']);
    lemma_matches_at_concat(s, p, esc_char(c), esc_body(t.skip(k).drop_first()));
    lemma_matches_at_index(s, p, esc_char(c));
    assert(s[p + 1] == esc_char(c)[1]);
    assert(esc_char(c).len() == 6) by {
        if esc_char(c).len() == 2 {
            assert(esc_char(c)[1] != 'u');
        }
    }
    assert(s[p + 2] == esc_char(c)[2]);
    assert(s[p + 3] == esc_char(c)[3]);
    assert(s[p + 4] == esc_char(c)[4]);
    assert(s[p + 5] == esc_char(c)[5]);
}

// Two six-character escapes that agree are escapes of the same character.
proof fn lemma_esc_char_len6_injective(a: char, b: char)
    requires
        esc_char(a) == esc_char(b),
        esc_char(a).len() == 6,
    ensures
        a == b,
{
    lemma_esc_char_shape(a);
    lemma_esc_char_shape(b);
    let ua = (a as u32) as int;
    let ub = (b as u32) as int;
    assert(esc_char(a)[4] == hex_digit(ua / 16));
    assert(esc_char(b)[4] == hex_digit(ub / 16));
    lemma_hex_digit_injective(ua / 16, ub / 16);
    lemma_hex_digit_injective(ua % 16, ub % 16);
    assert(ua == ub);
    vstd::utf8::char_u32_cast(a, a as u32);
    vstd::utf8::char_u32_cast(b, b as u32);
}

// Reads the six characters of a numeric escape at p, giving the escaped
// control character; fails wherever no rendered string could place one.
#[verifier::loop_isolation(false)]
fn parse_unicode_escape(s: &str, i: usize, p: usize, Ghost(accv): Ghost<Seq<char>>) -> (r:
    Option<char>)
    requires
        i < p < s@.len(),
        s@[p as int] == '\\',
        p + 1 < s@.len(),
        s@[p + 1] == 'u',
        s@.subrange(i + 1, p as int) == esc_body(accv),
        forall|t: Seq<char>|
            matches_at(s@, i as int, #[trigger] str_lit(t)) ==> accv.len() <= t.len() && t.take(
                accv.len() as int,
            ) == accv,
    ensures
        r matches Some(c) ==> p + 6 <= s@.len() && esc_char(c) == s@.subrange(p as int, p + 6)
            && esc_char(c).len() == 6,
        r is None ==> forall|t: Seq<char>| !matches_at(s@, i as int, #[trigger] str_lit(t)),
{
    let len = s.unicode_len();
    if len - p < 6 {
        proof {
            assert forall|t: Seq<char>|
                matches_at(s@, i as int, #[trigger] str_lit(t)) implies false by {
                lemma_unicode_witness(s@, i as int, p as int, accv, t);
            }
        }
        return None;
    }
    let c2 = s.get_char(p + 2);
    let c3 = s.get_char(p + 3);
    if c2 != '0' || c3 != '0' {
        proof {
            assert forall|t: Seq<char>|
                matches_at(s@, i as int, #[trigger] str_lit(t)) implies false by {
                lemma_unicode_witness(s@, i as int, p as int, accv, t);
            }
        }
        return None;
    }
    let h1 = s.get_char(p + 4);
    let h2 = s.get_char(p + 5);
    let v1 = match hex_val(h1) {
        Some(v) => v,
        None => {
            proof {
                assert forall|t: Seq<char>|
                    matches_at(s@, i as int, #[trigger] str_lit(t)) implies false by {
                    lemma_unicode_witness(s@, i as int, p as int, accv, t);
                    let c = t.skip(accv.len() as int)[0];
                    assert(0 <= (c as u32) as int / 16 < 16);
                    assert(hex_digit((c as u32) as int / 16) != h1);
                }
            }
            return None;
        },
    };
    let v2 = match hex_val(h2) {
        Some(v) => v,
        None => {
            proof {
                assert forall|t: Seq<char>|
                    matches_at(s@, i as int, #[trigger] str_lit(t)) implies false by {
                    lemma_unicode_witness(s@, i as int, p as int, accv, t);
                    let c = t.skip(accv.len() as int)[0];
                    assert(0 <= (c as u32) as int % 16 < 16);
                    assert(hex_digit((c as u32) as int % 16) != h2);
                }
            }
            return None;
        },
    };
    let u = v1 * 16 + v2;
    proof {
        assert(u / 16 == v1 && u % 16 == v2) by (nonlinear_arith)
            requires
                u == v1 * 16 + v2,
                0 <= v2 < 16,
                0 <= v1 < 16,
        ;
        // for any rendered string, the escaped character has value u
        assert forall|t: Seq<char>|
            matches_at(s@, i as int, #[trigger] str_lit(t)) implies ({
            let c = t.skip(accv.len() as int)[0];
            (c as u32) == u && is_control(c) && esc_char(c).len() == 6
        }) by {
            lemma_unicode_witness(s@, i as int, p as int, accv, t);
            let c = t.skip(accv.len() as int)[0];
            lemma_hex_digit_injective((c as u32) as int / 16, v1 as int);
            lemma_hex_digit_injective((c as u32) as int % 16, v2 as int);
        }
    }
    if u >= 0x20 {
        proof {
            assert forall|t: Seq<char>|
                matches_at(s@, i as int, #[trigger] str_lit(t)) implies false by {
                let c = t.skip(accv.len() as int)[0];
                lemma_unicode_witness(s@, i as int, p as int, accv, t);
                assert((c as u32) == u && is_control(c));
            }
        }
        return None;
    }
    if u == 0x8 || u == 0x9 || u == 0xA || u == 0xC || u == 0xD {
        // these controls use their short escapes in canonical form
        proof {
            assert forall|t: Seq<char>|
                matches_at(s@, i as int, #[trigger] str_lit(t)) implies false by {
                let c = t.skip(accv.len() as int)[0];
                lemma_unicode_witness(s@, i as int, p as int, accv, t);
                assert((c as u32) == u && esc_char(c).len() == 6);
                vstd::utf8::char_u32_cast(c, c as u32);
                lemma_esc_char_shape(c);
                assert(c == '\u{8}' || c == '\u{9}' || c == '\u{A}' || c == '\u{C}' || c
                    == '\u{D}');
            }
        }
        return None;
    }
    let c = char_from_u32(u);
    proof {
        vstd::utf8::char_u32_cast(c, c as u32);
        lemma_esc_char_shape(c);
        assert(is_control(c));
        assert(c != '\u{8}' && c != '\u{9}' && c != '\u{A}' && c != '\u{C}' && c != '\u{D}');
        assert(c != '"' && c != '\\') by {
            assert(('"' as u32) >= 0x20);
            assert(('\\' as u32) >= 0x20);
        }
        assert(esc_char(c).len() == 6);
        assert(esc_char(c) =~= s@.subrange(p as int, p + 6)) by {
            assert(s@.subrange(p as int, p + 6).len() == 6);
            assert(s@.subrange(p as int, p + 6)[0] == s@[p as int]);
            assert(s@.subrange(p as int, p + 6)[1] == s@[p + 1]);
            assert(s@.subrange(p as int, p + 6)[2] == s@[p + 2]);
            assert(s@.subrange(p as int, p + 6)[3] == s@[p + 3]);
            assert(s@.subrange(p as int, p + 6)[4] == s@[p + 4]);
            assert(s@.subrange(p as int, p + 6)[5] == s@[p + 5]);
            assert(esc_char(c)[4] == hex_digit(u as int / 16));
            assert(esc_char(c)[5] == hex_digit(u as int % 16));
        }
    }
    Some(c)
}

// Extends the accumulated characters across a parsed numeric escape.
proof fn lemma_unicode_escape_step(s: Seq<char>, i: int, p: int, accv: Seq<char>, c: char)
    requires
        0 <= i < p,
        p + 6 <= s.len(),
        s.subrange(i + 1, p) == esc_body(accv),
        esc_char(c) == s.subrange(p, p + 6),
        esc_char(c).len() == 6,
        forall|t: Seq<char>|
            matches_at(s, i, #[trigger] str_lit(t)) ==> accv.len() <= t.len() && t.take(
                accv.len() as int,
            ) == accv,
    ensures
        s.subrange(i + 1, p + 6) == esc_body(accv.push(c)),
        forall|t: Seq<char>|
            matches_at(s, i, #[trigger] str_lit(t)) ==> accv.push(c).len() <= t.len() && t.take(
                accv.push(c).len() as int,
            ) == accv.push(c),
{
    lemma_esc_char_shape(c);
    assert(s.subrange(i + 1, p + 6) =~= s.subrange(i + 1, p) + s.subrange(p, p + 6));
    lemma_esc_body_concat(accv, seq![c]);
    assert(esc_body(seq![c]) =~= esc_char(c)) by {
        assert(seq![c][0] == c);
        assert(seq![c].drop_first() =~= Seq::<char>::empty());
        assert(esc_body(Seq::<char>::empty()) =~= Seq::<char>::empty());
        assert(esc_char(c) + Seq::<char>::empty() =~= esc_char(c));
    }
    assert(accv.push(c) =~= accv + seq![c]);
    assert(s.subrange(i + 1, p + 6) =~= esc_body(accv.push(c)));
    assert forall|t: Seq<char>|
        matches_at(s, i, #[trigger] str_lit(t)) implies accv.push(c).len() <= t.len() && t.take(
        accv.push(c).len() as int,
    ) == accv.push(c) by {
        let k = accv.len() as int;
        lemma_str_witness_at(s, i, t, k);
        assert(matches_at(s, p, esc_body(t.skip(k)) + seq!['"']));
        lemma_matches_at_index(s, p, esc_body(t.skip(k)) + seq!['"']);
        if t.skip(k).len() == 0 {
            assert(s[p] == (esc_body(t.skip(k)) + seq!['"'])[0]);
            assert(s[p] == esc_char(c)[0]);
            assert(esc_char(c)[0] == '\\');
            assert(false);
        }
        let w = t.skip(k)[0];
        lemma_esc_body_first(t.skip(k));
        lemma_esc_char_shape(w);
        assert(s[p] == (esc_body(t.skip(k)) + seq!['"'])[0]);
        assert((esc_body(t.skip(k)) + seq!['"'])[0] == esc_body(t.skip(k))[0]);
        assert(s[p] == esc_char(w)[0]);
        assert(s[p] == esc_char(c)[0]);
        assert(esc_char(c)[0] == '\\');
        assert(esc_char(w).len() >= 2) by {
            if esc_char(w).len() == 1 {
                assert(esc_char(w)[0] == w);
            }
        }
        assert(esc_body(t.skip(k)) == esc_char(w) + esc_body(t.skip(k).drop_first()));
        lemma_matches_at_concat(s, p, esc_body(t.skip(k)), seq!['"']);
        lemma_matches_at_concat(s, p, esc_char(w), esc_body(t.skip(k).drop_first()));
        lemma_matches_at_index(s, p, esc_char(w));
        assert(s[p + 1] == esc_char(w)[1]);
        assert(s[p + 1] == esc_char(c)[1]);
        assert(esc_char(c)[1] == 'u');
        assert(esc_char(w).len() == 6) by {
            if esc_char(w).len() == 2 {
                assert(esc_char(w)[1] != 'u');
            }
        }
        assert(esc_char(w) =~= esc_char(c)) by {
            assert(forall|q: int| 0 <= q < 6 ==> #[trigger] esc_char(w)[q] == s[p + q]);
            assert(forall|q: int| 0 <= q < 6 ==> #[trigger] esc_char(c)[q] == s.subrange(
                p,
                p + 6,
            )[q]);
        }
        lemma_esc_char_len6_injective(w, c);
        assert(t.take(k + 1) =~= t.take(k).push(w));
        assert(t.take(k + 1) =~= accv.push(c));
    }
}

// Reads a string literal: consumes the opening quote through the closing
// quote, undoing the canonical escapes and rejecting everything else.
#[verifier::loop_isolation(false)]
fn parse_string(s: &str, i: usize) -> (r: Option<(String, usize)>)
    requires
        i < s@.len(),
        s@[i as int] == '"',
    ensures
        r matches Some(x) ==> i < x.1 <= s@.len() && s@.subrange(i as int, x.1 as int)
            == str_lit(x.0@),
        forall|t: Seq<char>|
            matches_at(s@, i as int, #[trigger] str_lit(t)) ==> (r matches Some(x) && x.0@ == t
                && x.1 == i + str_lit(t).len()),
{
    let len = s.unicode_len();
    let mut p = i + 1;
    let mut acc = String::new();
    proof {
        assert(s@.subrange(i + 1, i + 1) =~= Seq::<char>::empty());
        assert(esc_body(Seq::<char>::empty()) =~= Seq::<char>::empty());
    }
    loop
        invariant
            i < p <= len,
            s@.subrange(i + 1, p as int) == esc_body(acc@),
            forall|t: Seq<char>|
                matches_at(s@, i as int, #[trigger] str_lit(t)) ==> acc@.len() <= t.len()
                    && t.take(acc@.len() as int) == acc@,
        decreases len - p,
    {
        let ghost k = acc@.len() as int;
        proof {
            // for any rendered string here, its remainder starts at p
            assert forall|t: Seq<char>|
                matches_at(s@, i as int, #[trigger] str_lit(t)) implies matches_at(
                s@,
                p as int,
                esc_body(t.skip(k)) + seq!['"'],
            ) && esc_body(t.take(k)) == esc_body(acc@) by {
                assert(t.take(k) == acc@);
                lemma_str_witness_at(s@, i as int, t, k);
            }
        }
        if p == len {
            // the literal never closes
            proof {
                assert forall|t: Seq<char>|
                    matches_at(s@, i as int, #[trigger] str_lit(t)) implies false by {
                    assert(matches_at(s@, p as int, esc_body(t.skip(k)) + seq!['"']));
                    assert((esc_body(t.skip(k)) + seq!['"']).len() >= 1);
                }
            }
            return None;
        }
        let c0 = s.get_char(p);
        if c0 == '"' {
            proof {
                assert(s@.subrange(i as int, p + 1) =~= str_lit(acc@)) by {
                    assert(s@.subrange(i as int, p + 1) =~= seq!['"'] + s@.subrange(i + 1, p as int)
                        + seq!['"']);
                }
                assert forall|t: Seq<char>|
                    matches_at(s@, i as int, #[trigger] str_lit(t)) implies acc@ == t && p + 1 == i
                    + str_lit(t).len() by {
                    assert(matches_at(s@, p as int, esc_body(t.skip(k)) + seq!['"']));
                    if t.skip(k).len() > 0 {
                        lemma_esc_body_first(t.skip(k));
                        lemma_esc_char_shape(t.skip(k)[0]);
                        lemma_matches_at_index(s@, p as int, esc_body(t.skip(k)) + seq!['"']);
                        assert(s@[p as int] == (esc_body(t.skip(k)) + seq!['"'])[0]);
                        assert((esc_body(t.skip(k)) + seq!['"'])[0] == esc_body(t.skip(k))[0]);
                        assert(esc_body(t.skip(k))[0] == esc_char(t.skip(k)[0])[0]);
                        assert(esc_char(t.skip(k)[0])[0] == '"');
                        assert(false);
                    }
                    assert(t.skip(k).len() == 0);
                    assert(t =~= t.take(k));
                    assert(esc_body(t.skip(k)) =~= Seq::<char>::empty());
                    assert(esc_body(t) == esc_body(acc@));
                    assert(p == i + 1 + esc_body(t).len());
                }
            }
            return Some((acc, p + 1));
        }
        if c0 == '\\' {
            if len - p < 2 {
                proof {
                    assert forall|t: Seq<char>|
                        matches_at(s@, i as int, #[trigger] str_lit(t)) implies false by {
                        assert(matches_at(s@, p as int, esc_body(t.skip(k)) + seq!['"']));
                        lemma_matches_at_index(s@, p as int, esc_body(t.skip(k)) + seq!['"']);
                        if t.skip(k).len() > 0 {
                            lemma_esc_body_first(t.skip(k));
                            lemma_esc_char_shape(t.skip(k)[0]);
                            assert(s@[p as int] == (esc_body(t.skip(k)) + seq!['"'])[0]);
                            assert((esc_body(t.skip(k)) + seq!['"'])[0] == esc_body(t.skip(k))[0]);
                            assert(s@[p as int] == esc_char(t.skip(k)[0])[0]);
                            assert(esc_char(t.skip(k)[0]).len() >= 2) by {
                                if esc_char(t.skip(k)[0]).len() == 1 {
                                    assert(esc_char(t.skip(k)[0])[0] == t.skip(k)[0]);
                                }
                            }
                            // the escape extends past the end of the input
                            assert(esc_body(t.skip(k)).len() >= 2) by {
                                assert(esc_body(t.skip(k)) == esc_char(t.skip(k)[0]) + esc_body(
                                    t.skip(k).drop_first(),
                                ));
                            }
                            assert(p + 2 <= s@.len());
                        } else {
                            assert(s@[p as int] == (esc_body(t.skip(k)) + seq!['"'])[0]);
                        }
                    }
                }
                return None;
            }
            let e = s.get_char(p + 1);
            // ghost analysis shared by the escape arms: for a witness, the
            // next character is escaped and its escape starts "\\e"
            proof {
                assert forall|t: Seq<char>|
                    matches_at(s@, i as int, #[trigger] str_lit(t)) implies t.skip(k).len() > 0
                    && esc_char(t.skip(k)[0]).len() >= 2 && esc_char(t.skip(k)[0])[0] == '\\'
                    && esc_char(t.skip(k)[0])[1] == e && matches_at(
                    s@,
                    p as int,
                    esc_char(t.skip(k)[0]),
                ) by {
                    assert(matches_at(s@, p as int, esc_body(t.skip(k)) + seq!['"']));
                    lemma_matches_at_index(s@, p as int, esc_body(t.skip(k)) + seq!['"']);
                    if t.skip(k).len() == 0 {
                        assert(s@[p as int] == (esc_body(t.skip(k)) + seq!['"'])[0]);
                        assert(false);
                    }
                    lemma_esc_body_first(t.skip(k));
                    lemma_esc_char_shape(t.skip(k)[0]);
                    assert(s@[p as int] == (esc_body(t.skip(k)) + seq!['"'])[0]);
                    assert((esc_body(t.skip(k)) + seq!['"'])[0] == esc_body(t.skip(k))[0]);
                    assert(s@[p as int] == esc_char(t.skip(k)[0])[0]);
                    assert(esc_char(t.skip(k)[0]).len() >= 2) by {
                        if esc_char(t.skip(k)[0]).len() == 1 {
                            assert(esc_char(t.skip(k)[0])[0] == t.skip(k)[0]);
                        }
                    }
                    assert(esc_body(t.skip(k)) == esc_char(t.skip(k)[0]) + esc_body(
                        t.skip(k).drop_first(),
                    ));
                    lemma_matches_at_concat(
                        s@,
                        p as int,
                        esc_body(t.skip(k)),
                        seq!['"'],
                    );
                    lemma_matches_at_concat(
                        s@,
                        p as int,
                        esc_char(t.skip(k)[0]),
                        esc_body(t.skip(k).drop_first()),
                    );
                    lemma_matches_at_index(s@, p as int, esc_char(t.skip(k)[0]));
                    assert(s@[p + 1] == esc_char(t.skip(k)[0])[1]);
                }
            }
            if e == 'u' {
                match parse_unicode_escape(s, i, p, Ghost(acc@)) {
                    Some(c_dec) => {
                        proof {
                            lemma_unicode_escape_step(s@, i as int, p as int, acc@, c_dec);
                        }
                        push_char(&mut acc, c_dec);
                        p = p + 6;
                    },
                    None => {
                        return None;
                    },
                }
                continue;
            }
            let decoded: Option<char> = if e == '"' {
                Some('"')
            } else if e == '\\' {
                Some('\\')
            } else if e == 'b' {
                Some('\u{8}')
            } else if e == 't' {
                Some('\u{9}')
            } else if e == 'n' {
                Some('\u{A}')
            } else if e == 'f' {
                Some('\u{C}')
            } else if e == 'r' {
                Some('\u{D}')
            } else {
                None
            };
            match decoded {
                Some(c_dec) => {
                    proof {
                        assert(esc_char(c_dec) =~= seq!['\\', e]);
                        assert(s@.subrange(i + 1, p + 2) =~= esc_body(acc@) + esc_char(c_dec))
                            by {
                            assert(s@.subrange(i + 1, p + 2)[p - i - 1] == s@[p as int]);
                            assert(s@.subrange(i + 1, p + 2)[p - i] == s@[p + 1]);
                            assert(forall|q: int| 0 <= q < p - i - 1 ==> s@.subrange(
                                i + 1,
                                p + 2,
                            )[q] == #[trigger] s@.subrange(i + 1, p as int)[q]);
                        }
                        lemma_esc_body_concat(acc@, seq![c_dec]);
                        assert(esc_body(seq![c_dec]) =~= esc_char(c_dec)) by {
                            assert(seq![c_dec][0] == c_dec);
                            assert(seq![c_dec].drop_first() =~= Seq::<char>::empty());
                            assert(esc_char(c_dec) + Seq::<char>::empty() =~= esc_char(c_dec));
                        }
                        assert(esc_body(acc@.push(c_dec)) == esc_body(acc@) + esc_char(c_dec))
                            by {
                            assert(acc@.push(c_dec) =~= acc@ + seq![c_dec]);
                        }
                        // a witness's next character is exactly the decoded one
                        assert forall|t: Seq<char>|
                            matches_at(s@, i as int, #[trigger] str_lit(t)) implies acc@.push(
                            c_dec,
                        ).len() <= t.len() && t.take(acc@.push(c_dec).len() as int) == acc@.push(
                            c_dec,
                        ) by {
                            lemma_esc_char_shape(t.skip(k)[0]);
                            assert(esc_char(t.skip(k)[0]).len() == 2) by {
                                if esc_char(t.skip(k)[0]).len() == 6 {
                                    assert(esc_char(t.skip(k)[0])[1] == 'u');
                                }
                            }
                            assert(t.skip(k)[0] == c_dec);
                            assert(t.take(k + 1) =~= t.take(k).push(t.skip(k)[0]));
                            assert(acc@.push(c_dec).len() == k + 1);
                            assert(t.take(k + 1) =~= acc@.push(c_dec));
                        }
                    }
                    push_char(&mut acc, c_dec);
                    p = p + 2;
                },
                None => {
                    proof {
                        assert forall|t: Seq<char>|
                            matches_at(s@, i as int, #[trigger] str_lit(t)) implies false by {
                            lemma_esc_char_shape(t.skip(k)[0]);
                            if esc_char(t.skip(k)[0]).len() == 2 {
                                assert(e == '"' || e == '\\' || e == 'b' || e == 't' || e == 'n'
                                    || e == 'f' || e == 'r');
                            } else {
                                assert(esc_char(t.skip(k)[0])[1] == 'u');
                                assert(e == 'u');
                            }
                        }
                    }
                    return None;
                },
            }
        } else if e_is_control(c0) {
            // a raw control character never appears in a canonical literal
            proof {
                assert forall|t: Seq<char>|
                    matches_at(s@, i as int, #[trigger] str_lit(t)) implies false by {
                    assert(matches_at(s@, p as int, esc_body(t.skip(k)) + seq!['"']));
                    lemma_matches_at_index(s@, p as int, esc_body(t.skip(k)) + seq!['"']);
                    if t.skip(k).len() == 0 {
                        assert(s@[p as int] == (esc_body(t.skip(k)) + seq!['"'])[0]);
                        assert(('"' as u32) >= 0x20);
                    } else {
                        lemma_esc_body_first(t.skip(k));
                        lemma_esc_char_shape(t.skip(k)[0]);
                        assert(s@[p as int] == (esc_body(t.skip(k)) + seq!['"'])[0]);
                        assert((esc_body(t.skip(k)) + seq!['"'])[0] == esc_body(t.skip(k))[0]);
                        assert(s@[p as int] == esc_char(t.skip(k)[0])[0]);
                        if esc_char(t.skip(k)[0]).len() == 1 {
                            assert(esc_char(t.skip(k)[0])[0] == t.skip(k)[0]);
                            assert(!is_control(t.skip(k)[0]));
                        } else {
                            assert(esc_char(t.skip(k)[0])[0] == '\\');
                            assert(('\\' as u32) >= 0x20);
                        }
                    }
                }
            }
            return None;
        } else {
            // an ordinary character stands for itself
            proof {
                assert(!(c0 == '"' || c0 == '\\' || is_control(c0)));
                assert(esc_char(c0) =~= seq![c0]);
                assert(s@.subrange(i + 1, p + 1) =~= esc_body(acc@) + esc_char(c0)) by {
                    assert(s@.subrange(i + 1, p + 1)[p - i - 1] == s@[p as int]);
                    assert(forall|q: int| 0 <= q < p - i - 1 ==> s@.subrange(
                        i + 1,
                        p + 1,
                    )[q] == #[trigger] s@.subrange(i + 1, p as int)[q]);
                }
                lemma_esc_body_concat(acc@, seq![c0]);
                assert(esc_body(seq![c0]) =~= esc_char(c0)) by {
                    assert(seq![c0][0] == c0);
                    assert(seq![c0].drop_first() =~= Seq::<char>::empty());
                    assert(esc_char(c0) + Seq::<char>::empty() =~= esc_char(c0));
                }
                assert(esc_body(acc@.push(c0)) == esc_body(acc@) + esc_char(c0)) by {
                    assert(acc@.push(c0) =~= acc@ + seq![c0]);
                }
                assert forall|t: Seq<char>|
                    matches_at(s@, i as int, #[trigger] str_lit(t)) implies acc@.push(
                    c0,
                ).len() <= t.len() && t.take(acc@.push(c0).len() as int) == acc@.push(c0) by {
                    assert(matches_at(s@, p as int, esc_body(t.skip(k)) + seq!['"']));
                    lemma_matches_at_index(s@, p as int, esc_body(t.skip(k)) + seq!['"']);
                    if t.skip(k).len() == 0 {
                        assert(s@[p as int] == (esc_body(t.skip(k)) + seq!['"'])[0]);
                        assert(false);
                    }
                    lemma_esc_body_first(t.skip(k));
                    lemma_esc_char_shape(t.skip(k)[0]);
                    assert(s@[p as int] == (esc_body(t.skip(k)) + seq!['"'])[0]);
                    assert((esc_body(t.skip(k)) + seq!['"'])[0] == esc_body(t.skip(k))[0]);
                    assert(s@[p as int] == esc_char(t.skip(k)[0])[0]);
                    assert(esc_char(t.skip(k)[0]).len() == 1) by {
                        if esc_char(t.skip(k)[0]).len() >= 2 {
                            assert(esc_char(t.skip(k)[0])[0] == '\\');
                        }
                    }
                    assert(t.skip(k)[0] == c0);
                    assert(t.take(k + 1) =~= t.take(k).push(t.skip(k)[0]));
                    assert(t.take(k + 1) =~= acc@.push(c0));
                }
            }
            push_char(&mut acc, c0);
            p = p + 1;
        }
    }
}

fn e_is_control(c: char) -> (r: bool)
    ensures
        r == is_control(c),
{
    (c as u32) < 0x20
}

// The first character of a rendering identifies the kind of value.
pub proof fn lemma_jcs_first(sv: SpecValue)
    ensures
        jcs_value(sv).len() >= 1,
        sv is Null ==> jcs_value(sv)[0] == 'n',
        sv is Bool ==> jcs_value(sv)[0] == 't' || jcs_value(sv)[0] == 'f',
        sv is Int ==> jcs_value(sv)[0] == '-' || is_digit(jcs_value(sv)[0]),
        sv is Text ==> jcs_value(sv)[0] == '"',
        sv is Arr ==> jcs_value(sv)[0] == '[',
        sv is Obj ==> jcs_value(sv)[0] == '{',
{
    match sv {
        SpecValue::Int(n) => {
            let m: nat = if n < 0 { (-n) as nat } else { n as nat };
            lemma_dec_str_props(m);
            if n < 0 {
                assert(int_str(n)[0] == '-');
            } else {
                assert(int_str(n)[0] == dec_str(m)[0]);
            }
        },
        _ => {},
    }
}

// The rendering of an array or object body, cut at an element boundary.
pub proof fn lemma_arr_body_cat(es: Seq<SpecValue>, k: int)
    requires
        0 < k < es.len(),
    ensures
        jcs_arr_body(es) == jcs_arr_body(es.take(k)) + seq![','] + jcs_arr_body(es.skip(k)),
    decreases k,
{
    if k == 1 {
        assert(es.len() >= 2);
        assert(es.take(1).len() == 1);
        assert(es.take(1)[0] == es[0]);
        assert(es.skip(1) =~= es.drop_first());
        assert(jcs_arr_body(es.take(1)) == jcs_value(es[0]));
    } else {
        lemma_arr_body_cat(es, k - 1);
        lemma_arr_body_snoc(es, k - 1);
        let rest = es.skip(k - 1);
        assert(rest.len() >= 2);
        assert(rest[0] == es[k - 1]);
        assert(rest.drop_first() =~= es.skip(k));
        assert(jcs_arr_body(rest) == jcs_value(es[k - 1]) + seq![','] + jcs_arr_body(
            es.skip(k),
        ));
        assert(jcs_arr_body(es.take(k - 1)) + seq![','] + (jcs_value(es[k - 1]) + seq![',']
            + jcs_arr_body(es.skip(k))) =~= (jcs_arr_body(es.take(k - 1)) + seq![','] + jcs_value(
            es[k - 1],
        )) + seq![','] + jcs_arr_body(es.skip(k)));
    }
}

pub proof fn lemma_obj_body_cat(fs: Seq<(Seq<char>, SpecValue)>, k: int)
    requires
        0 < k < fs.len(),
    ensures
        jcs_obj_body(fs) == jcs_obj_body(fs.take(k)) + seq![','] + jcs_obj_body(fs.skip(k)),
    decreases k,
{
    if k == 1 {
        assert(fs.len() >= 2);
        assert(fs.take(1).len() == 1);
        assert(fs.take(1)[0] == fs[0]);
        assert(fs.skip(1) =~= fs.drop_first());
        assert(jcs_obj_body(fs.take(1)) == jcs_obj_entry(fs[0]));
    } else {
        lemma_obj_body_cat(fs, k - 1);
        lemma_obj_body_snoc(fs, k - 1);
        let rest = fs.skip(k - 1);
        assert(rest.len() >= 2);
        assert(rest[0] == fs[k - 1]);
        assert(rest.drop_first() =~= fs.skip(k));
        assert(jcs_obj_body(rest) == jcs_obj_entry(fs[k - 1]) + seq![','] + jcs_obj_body(
            fs.skip(k),
        ));
        assert(jcs_obj_body(fs.take(k - 1)) + seq![','] + (jcs_obj_entry(fs[k - 1]) + seq![',']
            + jcs_obj_body(fs.skip(k))) =~= (jcs_obj_body(fs.take(k - 1)) + seq![',']
            + jcs_obj_entry(fs[k - 1])) + seq![','] + jcs_obj_body(fs.skip(k)));
    }
}

// Where element k of a rendered array lies, and what follows it.
proof fn lemma_arr_witness_at(s: Seq<char>, i: int, es: Seq<SpecValue>, k: int, p: int)
    requires
        matches_at(s, i, jcs_value(SpecValue::Arr(es))),
        0 <= k < es.len(),
        p == i + 1 + (if k == 0 { 0int } else { jcs_arr_body(es.take(k)).len() + 1int }),
    ensures
        matches_at(s, p, jcs_value(es[k])),
        ({
            let q = p + jcs_value(es[k]).len();
            &&& q < s.len()
            &&& s[q] == (if k + 1 == es.len() { ']' } else { ',' })
            &&& follow_ok(s, q)
            &&& (k + 1 == es.len() ==> q + 1 == i + jcs_value(SpecValue::Arr(es)).len())
            &&& (k + 1 < es.len() ==> q + 1 == i + 1 + (jcs_arr_body(es.take(k + 1)).len()
                + 1))
        }),
{
    let body = jcs_arr_body(es);
    let whole = jcs_value(SpecValue::Arr(es));
    assert(whole == seq!['['] + body + seq![']']);
    assert(whole =~= seq!['['] + (body + seq![']']));
    lemma_matches_at_concat(s, i, seq!['['], body + seq![']']);
    // split the body before element k
    let head: Seq<char> = if k == 0 {
        Seq::<char>::empty()
    } else {
        jcs_arr_body(es.take(k)) + seq![',']
    };
    let tail = jcs_arr_body(es.skip(k));
    assert(body == head + tail) by {
        if k == 0 {
            assert(es.skip(0) =~= es);
            assert(head + tail =~= tail);
        } else {
            lemma_arr_body_cat(es, k);
            assert((jcs_arr_body(es.take(k)) + seq![',']) + jcs_arr_body(es.skip(k))
                =~= jcs_arr_body(es.take(k)) + seq![','] + jcs_arr_body(es.skip(k)));
        }
    }
    assert(body + seq![']'] =~= head + (tail + seq![']']));
    lemma_matches_at_concat(s, i + 1, head, tail + seq![']']);
    assert(p == i + 1 + head.len());
    assert(matches_at(s, p, tail + seq![']']));
    // the element at the front of the remaining body
    let rest = es.skip(k);
    assert(rest.len() == es.len() - k);
    assert(rest[0] == es[k]);
    if k + 1 == es.len() {
        assert(rest.len() == 1);
        assert(tail == jcs_value(es[k]));
        lemma_matches_at_concat(s, p, tail, seq![']']);
        lemma_matches_at_index(s, p + tail.len(), seq![']']);
        assert(s[p + tail.len()] == seq![']'][0]);
        assert(whole.len() == 2 + body.len());
    } else {
        assert(rest.len() >= 2);
        assert(rest.drop_first() =~= es.skip(k + 1));
        assert(tail == jcs_value(es[k]) + seq![','] + jcs_arr_body(es.skip(k + 1)));
        assert(tail + seq![']'] =~= jcs_value(es[k]) + (seq![','] + (jcs_arr_body(
            es.skip(k + 1),
        ) + seq![']'])));
        lemma_matches_at_concat(s, p, jcs_value(es[k]), seq![','] + (jcs_arr_body(
            es.skip(k + 1),
        ) + seq![']']));
        let q = p + jcs_value(es[k]).len();
        lemma_matches_at_concat(s, q, seq![','], jcs_arr_body(es.skip(k + 1)) + seq![']']);
        lemma_matches_at_index(s, q, seq![',']);
        assert(s[q] == seq![','][0]);
        // position of the next element
        lemma_arr_body_snoc(es, k);
        assert(jcs_arr_body(es.take(k + 1)).len() == head.len() + jcs_value(es[k]).len());
    }
}

// Where entry k of a rendered object lies: its key, the colon, its value,
// and what follows.
proof fn lemma_obj_witness_at(
    s: Seq<char>,
    i: int,
    fs: Seq<(Seq<char>, SpecValue)>,
    k: int,
    p: int,
)
    requires
        matches_at(s, i, jcs_value(SpecValue::Obj(fs))),
        0 <= k < fs.len(),
        p == i + 1 + (if k == 0 { 0int } else { jcs_obj_body(fs.take(k)).len() + 1int }),
    ensures
        matches_at(s, p, str_lit(fs[k].0)),
        ({
            let pc = p + str_lit(fs[k].0).len();
            let pv = pc + 1;
            let q = pv + jcs_value(fs[k].1).len();
            &&& pc < s.len()
            &&& s[pc] == ':'
            &&& matches_at(s, pv, jcs_value(fs[k].1))
            &&& q < s.len()
            &&& s[q] == (if k + 1 == fs.len() { '}' } else { ',' })
            &&& follow_ok(s, q)
            &&& (k + 1 == fs.len() ==> q + 1 == i + jcs_value(SpecValue::Obj(fs)).len())
            &&& (k + 1 < fs.len() ==> q + 1 == i + 1 + (jcs_obj_body(fs.take(k + 1)).len()
                + 1))
        }),
{
    let body = jcs_obj_body(fs);
    let whole = jcs_value(SpecValue::Obj(fs));
    assert(whole == seq!['{'] + body + seq!['}']);
    assert(whole =~= seq!['{'] + (body + seq!['}']));
    lemma_matches_at_concat(s, i, seq!['{'], body + seq!['}']);
    let head: Seq<char> = if k == 0 {
        Seq::<char>::empty()
    } else {
        jcs_obj_body(fs.take(k)) + seq![',']
    };
    let tail = jcs_obj_body(fs.skip(k));
    assert(body == head + tail) by {
        if k == 0 {
            assert(fs.skip(0) =~= fs);
            assert(head + tail =~= tail);
        } else {
            lemma_obj_body_cat(fs, k);
            assert((jcs_obj_body(fs.take(k)) + seq![',']) + jcs_obj_body(fs.skip(k))
                =~= jcs_obj_body(fs.take(k)) + seq![','] + jcs_obj_body(fs.skip(k)));
        }
    }
    assert(body + seq!['}'] =~= head + (tail + seq!['}']));
    lemma_matches_at_concat(s, i + 1, head, tail + seq!['}']);
    assert(p == i + 1 + head.len());
    assert(matches_at(s, p, tail + seq!['}']));
    let rest = fs.skip(k);
    assert(rest[0] == fs[k]);
    let entry = jcs_obj_entry(fs[k]);
    assert(entry == str_lit(fs[k].0) + seq![':'] + jcs_value(fs[k].1));
    let pc = p + str_lit(fs[k].0).len();
    let pv = pc + 1;
    let q = pv + jcs_value(fs[k].1).len();
    if k + 1 == fs.len() {
        assert(rest.len() == 1);
        assert(tail == entry);
        lemma_matches_at_concat(s, p, tail, seq!['}']);
        assert(entry =~= str_lit(fs[k].0) + (seq![':'] + jcs_value(fs[k].1)));
        lemma_matches_at_concat(s, p, str_lit(fs[k].0), seq![':'] + jcs_value(fs[k].1));
        lemma_matches_at_concat(s, pc, seq![':'], jcs_value(fs[k].1));
        lemma_matches_at_index(s, pc, seq![':']);
        assert(s[pc] == seq![':'][0]);
        lemma_matches_at_index(s, p + tail.len(), seq!['}']);
        assert(s[p + tail.len()] == seq!['}'][0]);
        assert(q == p + tail.len());
        assert(whole.len() == 2 + body.len());
    } else {
        assert(rest.len() >= 2);
        assert(rest.drop_first() =~= fs.skip(k + 1));
        assert(tail == entry + seq![','] + jcs_obj_body(fs.skip(k + 1)));
        assert(tail + seq!['}'] =~= entry + (seq![','] + (jcs_obj_body(fs.skip(k + 1))
            + seq!['}'])));
        lemma_matches_at_concat(s, p, entry, seq![','] + (jcs_obj_body(fs.skip(k + 1))
            + seq!['}']));
        assert(entry =~= str_lit(fs[k].0) + (seq![':'] + jcs_value(fs[k].1)));
        lemma_matches_at_concat(s, p, str_lit(fs[k].0), seq![':'] + jcs_value(fs[k].1));
        lemma_matches_at_concat(s, pc, seq![':'], jcs_value(fs[k].1));
        lemma_matches_at_index(s, pc, seq![':']);
        assert(s[pc] == seq![':'][0]);
        lemma_matches_at_concat(s, q, seq![','], jcs_obj_body(fs.skip(k + 1)) + seq!['}']);
        lemma_matches_at_index(s, q, seq![',']);
        assert(s[q] == seq![','][0]);
        lemma_obj_body_snoc(fs, k);
        assert(jcs_obj_body(fs.take(k + 1)).len() == head.len() + entry.len());
    }
}

proof fn lemma_spec_values_push(s: Seq<Value>, v: Value)
    ensures
        spec_values_of(s.push(v)) == spec_values_of(s).push(spec_value_of(v)),
{
    lemma_spec_values_of_index(s);
    lemma_spec_values_of_index(s.push(v));
    assert(spec_values_of(s.push(v)) =~= spec_values_of(s).push(spec_value_of(v))) by {
        assert(forall|k: int| 0 <= k < s.len() ==> #[trigger] s.push(v)[k] == s[k]);
        assert(s.push(v)[s.len() as int] == v);
    }
}

proof fn lemma_spec_fields_push(s: Seq<(String, Value)>, kv: (String, Value))
    ensures
        spec_fields_of(s.push(kv)) == spec_fields_of(s).push((kv.0@, spec_value_of(kv.1))),
{
    lemma_spec_fields_of_index(s);
    lemma_spec_fields_of_index(s.push(kv));
    assert(spec_fields_of(s.push(kv)) =~= spec_fields_of(s).push((kv.0@, spec_value_of(kv.1))))
        by {
        assert(forall|k: int| 0 <= k < s.len() ==> #[trigger] s.push(kv)[k] == s[k]);
        assert(s.push(kv)[s.len() as int] == kv);
    }
}

// Reads an array: '[', elements separated by commas, ']'.
#[verifier::loop_isolation(false)]
#[verifier::rlimit(40)]
fn parse_array(s: &str, i: usize) -> (r: Option<(Value, usize)>)
    requires
        i < s@.len(),
        s@[i as int] == '[',
    ensures
        r matches Some(x) ==> i < x.1 <= s@.len() && spec_value_wf(x.0@) && s@.subrange(
            i as int,
            x.1 as int,
        ) == jcs_value(x.0@),
        forall|es: Seq<SpecValue>|
            spec_value_wf(SpecValue::Arr(es)) && matches_at(
                s@,
                i as int,
                #[trigger] jcs_value(SpecValue::Arr(es)),
            ) ==> (r matches Some(x) && x.0@ == SpecValue::Arr(es) && x.1 == i + jcs_value(
                SpecValue::Arr(es),
            ).len()),
    decreases s@.len() - i, 0int,
{
    let len = s.unicode_len();
    let p0 = i + 1;
    if p0 == len {
        proof {
            assert forall|es: Seq<SpecValue>|
                spec_value_wf(SpecValue::Arr(es)) && matches_at(
                    s@,
                    i as int,
                    #[trigger] jcs_value(SpecValue::Arr(es)),
                ) implies false by {
                assert(jcs_value(SpecValue::Arr(es)).len() >= 2);
            }
        }
        return None;
    }
    if s.get_char(p0) == ']' {
        let items: Vec<Value> = Vec::new();
        proof {
            assert(spec_values_of(items@) =~= Seq::<SpecValue>::empty());
            assert(jcs_arr_body(Seq::<SpecValue>::empty()) =~= Seq::<char>::empty());
            let v = Value::Arr(items);
            assert(v@ == SpecValue::Arr(Seq::<SpecValue>::empty()));
            crate::value::lemma_wf_arr_intro(Seq::<SpecValue>::empty());
            assert(jcs_value(v@) =~= seq!['[', ']']);
            assert(s@.subrange(i as int, p0 + 1) =~= seq!['[', ']']) by {
                assert(s@.subrange(i as int, p0 + 1)[0] == s@[i as int]);
                assert(s@.subrange(i as int, p0 + 1)[1] == s@[p0 as int]);
            }
            assert forall|es: Seq<SpecValue>|
                spec_value_wf(SpecValue::Arr(es)) && matches_at(
                    s@,
                    i as int,
                    #[trigger] jcs_value(SpecValue::Arr(es)),
                ) implies es =~= Seq::<SpecValue>::empty() && i + jcs_value(
                SpecValue::Arr(es),
            ).len() == p0 + 1 by {
                if es.len() > 0 {
                    lemma_arr_witness_at(s@, i as int, es, 0, p0 as int);
                    lemma_jcs_first(es[0]);
                    lemma_matches_at_index(s@, p0 as int, jcs_value(es[0]));
                    assert(s@[p0 as int] == jcs_value(es[0])[0]);
                    assert(!is_digit(']'));
                    assert(false);
                }
                assert(jcs_arr_body(es) =~= Seq::<char>::empty());
                assert(jcs_value(SpecValue::Arr(es)).len() == 2);
            }
        }
        return Some((Value::Arr(items), p0 + 1));
    }
    let mut items: Vec<Value> = Vec::new();
    let mut p = p0;
    proof {
        assert(spec_values_of(items@) =~= Seq::<SpecValue>::empty());
        assert forall|es: Seq<SpecValue>|
            spec_value_wf(SpecValue::Arr(es)) && matches_at(
                s@,
                i as int,
                #[trigger] jcs_value(SpecValue::Arr(es)),
            ) implies items@.len() < es.len() && spec_values_of(items@) == es.take(
            items@.len() as int,
        ) by {
            if es.len() == 0 {
                assert(jcs_arr_body(es) =~= Seq::<char>::empty());
                assert(jcs_value(SpecValue::Arr(es)) =~= seq!['[', ']']);
                lemma_matches_at_index(s@, i as int, jcs_value(SpecValue::Arr(es)));
                assert(s@[i + 1] == jcs_value(SpecValue::Arr(es))[1]);
                assert(false);
            }
            assert(spec_values_of(items@) =~= es.take(0));
        }
    }
    loop
        invariant
            i < p <= len,
            items@.len() == 0 ==> p == i + 1,
            items@.len() > 0 ==> i + 1 <= p && s@.subrange(i + 1, p as int) == jcs_arr_body(
                spec_values_of(items@),
            ) + seq![','],
            spec_values_of(items@).len() == items@.len(),
            forall|k: int| 0 <= k < items@.len() ==> spec_value_wf(
                #[trigger] spec_values_of(items@)[k],
            ),
            items@.len() == 0 ==> s@[p as int] != ']',
            forall|es: Seq<SpecValue>|
                spec_value_wf(SpecValue::Arr(es)) && matches_at(
                    s@,
                    i as int,
                    #[trigger] jcs_value(SpecValue::Arr(es)),
                ) ==> items@.len() < es.len() && spec_values_of(items@) == es.take(
                    items@.len() as int,
                ),
        decreases len - p,
    {
        let ghost k = items@.len() as int;
        proof {
            // place element k for every rendered array
            assert forall|es: Seq<SpecValue>|
                spec_value_wf(SpecValue::Arr(es)) && matches_at(
                    s@,
                    i as int,
                    #[trigger] jcs_value(SpecValue::Arr(es)),
                ) implies matches_at(s@, p as int, jcs_value(es[k])) && follow_ok(
                s@,
                p + jcs_value(es[k]).len(),
            ) && spec_value_wf(es[k]) by {
                assert(es.take(k) == spec_values_of(items@));
                lemma_arr_witness_at(s@, i as int, es, k, p as int);
                crate::value::lemma_wf_arr_elem(es, k);
            }
        }
        match parse_value(s, p) {
            None => {
                proof {
                    assert forall|es: Seq<SpecValue>|
                        spec_value_wf(SpecValue::Arr(es)) && matches_at(
                            s@,
                            i as int,
                            #[trigger] jcs_value(SpecValue::Arr(es)),
                        ) implies false by {
                        assert(matches_at(s@, p as int, jcs_value(es[k])));
                    }
                }
                return None;
            },
            Some((v, q)) => {
                proof {
                    lemma_spec_values_push(items@, v);
                    let svn = spec_values_of(items@).push(v@);
                    lemma_arr_body_snoc(svn, k);
                    assert(svn.take(k) =~= spec_values_of(items@));
                    assert(svn.take(k + 1) =~= svn);
                    assert(s@.subrange(i + 1, q as int) =~= jcs_arr_body(svn)) by {
                        assert(s@.subrange(p as int, q as int) == jcs_value(v@));
                        if k == 0 {
                            assert(s@.subrange(i + 1, q as int) =~= s@.subrange(
                                p as int,
                                q as int,
                            ));
                        } else {
                            assert(s@.subrange(i + 1, q as int) =~= s@.subrange(i + 1, p as int)
                                + s@.subrange(p as int, q as int));
                        }
                    }
                    // the element parsed is element k of every rendered array
                    assert forall|es: Seq<SpecValue>|
                        spec_value_wf(SpecValue::Arr(es)) && matches_at(
                            s@,
                            i as int,
                            #[trigger] jcs_value(SpecValue::Arr(es)),
                        ) implies v@ == es[k] && q == p + jcs_value(es[k]).len() && svn == es.take(
                        k + 1,
                    ) by {
                        assert(matches_at(s@, p as int, jcs_value(es[k])));
                        assert(es.take(k + 1) =~= es.take(k).push(es[k]));
                    }
                }
                items.push(v);
                p = q;
                let ghost svn = spec_values_of(items@);
                if p == len {
                    proof {
                        assert forall|es: Seq<SpecValue>|
                            spec_value_wf(SpecValue::Arr(es)) && matches_at(
                                s@,
                                i as int,
                                #[trigger] jcs_value(SpecValue::Arr(es)),
                            ) implies false by {
                            assert(es.take(k) == svn.take(k));
                            lemma_arr_witness_at(s@, i as int, es, k, (p - jcs_value(
                                es[k],
                            ).len()) as int);
                        }
                    }
                    return None;
                }
                let c = s.get_char(p);
                proof {
                    // what follows element k in every rendered array
                    assert forall|es: Seq<SpecValue>|
                        spec_value_wf(SpecValue::Arr(es)) && matches_at(
                            s@,
                            i as int,
                            #[trigger] jcs_value(SpecValue::Arr(es)),
                        ) implies k < es.len() && svn == es.take(k + 1) && s@[p as int] == (if k
                        + 1 == es.len() {
                        ']'
                    } else {
                        ','
                    }) && (k + 1 == es.len() ==> p + 1 == i + jcs_value(
                        SpecValue::Arr(es),
                    ).len()) && (k + 1 < es.len() ==> p + 1 == i + 1 + (jcs_arr_body(
                        es.take(k + 1),
                    ).len() + 1)) by {
                        assert(es.take(k) == svn.take(k)) by {
                            assert(svn.take(k) =~= es.take(k));
                        }
                        lemma_arr_witness_at(s@, i as int, es, k, (p - jcs_value(
                            es[k],
                        ).len()) as int);
                    }
                }
                if c == ']' {
                    proof {
                        assert forall|q2: int| 0 <= q2 < svn.len() implies spec_value_wf(
                            #[trigger] svn[q2],
                        ) by {}
                        crate::value::lemma_wf_arr_intro(svn);
                        let out = Value::Arr(items);
                        assert(out@ == SpecValue::Arr(svn));
                        assert(s@.subrange(i as int, p + 1) =~= jcs_value(SpecValue::Arr(svn)))
                            by {
                            assert(s@.subrange(i as int, p + 1)[0] == s@[i as int]);
                            assert(s@.subrange(i as int, p + 1)[p - i] == s@[p as int]);
                            assert(forall|q2: int| 0 <= q2 < p - i - 1 ==> s@.subrange(
                                i as int,
                                p + 1,
                            )[q2 + 1] == #[trigger] s@.subrange(i + 1, p as int)[q2]);
                            assert(jcs_value(SpecValue::Arr(svn)) == seq!['['] + jcs_arr_body(
                                svn,
                            ) + seq![']']);
                        }
                        assert forall|es: Seq<SpecValue>|
                            spec_value_wf(SpecValue::Arr(es)) && matches_at(
                                s@,
                                i as int,
                                #[trigger] jcs_value(SpecValue::Arr(es)),
                            ) implies SpecValue::Arr(svn) == SpecValue::Arr(es) && p + 1 == i
                            + jcs_value(SpecValue::Arr(es)).len() by {
                            if k + 1 < es.len() {
                                assert(s@[p as int] == ',');
                            }
                            assert(k + 1 == es.len());
                            assert(es =~= es.take(k + 1));
                        }
                    }
                    return Some((Value::Arr(items), p + 1));
                } else if c == ',' {
                    proof {
                        assert(s@.subrange(i + 1, p + 1) =~= jcs_arr_body(svn) + seq![','])
                            by {
                            assert(s@.subrange(i + 1, p + 1)[p - i - 1] == s@[p as int]);
                            assert(forall|q2: int| 0 <= q2 < p - i - 1 ==> s@.subrange(
                                i + 1,
                                p + 1,
                            )[q2] == #[trigger] s@.subrange(i + 1, p as int)[q2]);
                        }
                        assert forall|es: Seq<SpecValue>|
                            spec_value_wf(SpecValue::Arr(es)) && matches_at(
                                s@,
                                i as int,
                                #[trigger] jcs_value(SpecValue::Arr(es)),
                            ) implies items@.len() < es.len() && svn == es.take(
                            items@.len() as int,
                        ) by {
                            if k + 1 == es.len() {
                                assert(s@[p as int] == ']');
                            }
                        }
                    }
                    p = p + 1;
                } else {
                    proof {
                        assert forall|es: Seq<SpecValue>|
                            spec_value_wf(SpecValue::Arr(es)) && matches_at(
                                s@,
                                i as int,
                                #[trigger] jcs_value(SpecValue::Arr(es)),
                            ) implies false by {
                            assert(s@[p as int] == ']' || s@[p as int] == ',');
                        }
                    }
                    return None;
                }
            },
        }
    }
}

// Reads an object: '{', key–value members separated by commas, '}', the
// keys strictly ascending.
#[verifier::loop_isolation(false)]
#[verifier::rlimit(40)]
fn parse_object(s: &str, i: usize) -> (r: Option<(Value, usize)>)
    requires
        i < s@.len(),
        s@[i as int] == '{',
    ensures
        r matches Some(x) ==> i < x.1 <= s@.len() && spec_value_wf(x.0@) && s@.subrange(
            i as int,
            x.1 as int,
        ) == jcs_value(x.0@),
        forall|fs: Seq<(Seq<char>, SpecValue)>|
            spec_value_wf(SpecValue::Obj(fs)) && matches_at(
                s@,
                i as int,
                #[trigger] jcs_value(SpecValue::Obj(fs)),
            ) ==> (r matches Some(x) && x.0@ == SpecValue::Obj(fs) && x.1 == i + jcs_value(
                SpecValue::Obj(fs),
            ).len()),
    decreases s@.len() - i, 0int,
{
    let len = s.unicode_len();
    let p0 = i + 1;
    if p0 == len {
        proof {
            assert forall|fs: Seq<(Seq<char>, SpecValue)>|
                spec_value_wf(SpecValue::Obj(fs)) && matches_at(
                    s@,
                    i as int,
                    #[trigger] jcs_value(SpecValue::Obj(fs)),
                ) implies false by {
                assert(jcs_value(SpecValue::Obj(fs)).len() >= 2);
            }
        }
        return None;
    }
    if s.get_char(p0) == '}' {
        let fields: Vec<(String, Value)> = Vec::new();
        proof {
            assert(spec_fields_of(fields@) =~= Seq::<(Seq<char>, SpecValue)>::empty());
            assert(jcs_obj_body(Seq::<(Seq<char>, SpecValue)>::empty()) =~= Seq::<char>::empty());
            let v = Value::Obj(fields);
            assert(v@ == SpecValue::Obj(Seq::<(Seq<char>, SpecValue)>::empty()));
            crate::value::lemma_wf_obj_intro(Seq::<(Seq<char>, SpecValue)>::empty());
            assert(jcs_value(v@) =~= seq!['{', '}']);
            assert(s@.subrange(i as int, p0 + 1) =~= seq!['{', '}']) by {
                assert(s@.subrange(i as int, p0 + 1)[0] == s@[i as int]);
                assert(s@.subrange(i as int, p0 + 1)[1] == s@[p0 as int]);
            }
            assert forall|fs: Seq<(Seq<char>, SpecValue)>|
                spec_value_wf(SpecValue::Obj(fs)) && matches_at(
                    s@,
                    i as int,
                    #[trigger] jcs_value(SpecValue::Obj(fs)),
                ) implies fs =~= Seq::<(Seq<char>, SpecValue)>::empty() && i + jcs_value(
                SpecValue::Obj(fs),
            ).len() == p0 + 1 by {
                if fs.len() > 0 {
                    lemma_obj_witness_at(s@, i as int, fs, 0, p0 as int);
                    lemma_matches_at_index(s@, p0 as int, str_lit(fs[0].0));
                    assert(s@[p0 as int] == str_lit(fs[0].0)[0]);
                    assert(str_lit(fs[0].0)[0] == '"');
                    assert(false);
                }
                assert(jcs_obj_body(fs) =~= Seq::<char>::empty());
                assert(jcs_value(SpecValue::Obj(fs)).len() == 2);
            }
        }
        return Some((Value::Obj(fields), p0 + 1));
    }
    let mut fields: Vec<(String, Value)> = Vec::new();
    let mut p = p0;
    proof {
        assert(spec_fields_of(fields@) =~= Seq::<(Seq<char>, SpecValue)>::empty());
        assert forall|fs: Seq<(Seq<char>, SpecValue)>|
            spec_value_wf(SpecValue::Obj(fs)) && matches_at(
                s@,
                i as int,
                #[trigger] jcs_value(SpecValue::Obj(fs)),
            ) implies fields@.len() < fs.len() && spec_fields_of(fields@) == fs.take(
            fields@.len() as int,
        ) by {
            if fs.len() == 0 {
                assert(jcs_obj_body(fs) =~= Seq::<char>::empty());
                assert(jcs_value(SpecValue::Obj(fs)) =~= seq!['{', '}']);
                lemma_matches_at_index(s@, i as int, jcs_value(SpecValue::Obj(fs)));
                assert(s@[i + 1] == jcs_value(SpecValue::Obj(fs))[1]);
                assert(false);
            }
            assert(spec_fields_of(fields@) =~= fs.take(0));
        }
    }
    loop
        invariant
            i < p <= len,
            fields@.len() == 0 ==> p == i + 1,
            fields@.len() > 0 ==> s@.subrange(i + 1, p as int) == jcs_obj_body(
                spec_fields_of(fields@),
            ) + seq![','],
            spec_fields_of(fields@).len() == fields@.len(),
            forall|k: int| 0 <= k < fields@.len() ==> #[trigger] spec_fields_of(
                fields@,
            )[k] == (fields@[k].0@, spec_value_of(fields@[k].1)),
            forall|k: int| 0 <= k < fields@.len() ==> spec_value_wf(
                (#[trigger] spec_fields_of(fields@)[k]).1,
            ),
            forall|k: int, k2: int|
                0 <= k < k2 < fields@.len() ==> chars_lt(
                    (#[trigger] spec_fields_of(fields@)[k]).0,
                    (#[trigger] spec_fields_of(fields@)[k2]).0,
                ),
            fields@.len() == 0 ==> s@[p as int] != '}',
            forall|fs: Seq<(Seq<char>, SpecValue)>|
                spec_value_wf(SpecValue::Obj(fs)) && matches_at(
                    s@,
                    i as int,
                    #[trigger] jcs_value(SpecValue::Obj(fs)),
                ) ==> fields@.len() < fs.len() && spec_fields_of(fields@) == fs.take(
                    fields@.len() as int,
                ),
        decreases len - p,
    {
        let ghost k = fields@.len() as int;
        proof {
            lemma_spec_fields_of_index(fields@);
            // place member k for every rendered object
            assert forall|fs: Seq<(Seq<char>, SpecValue)>|
                spec_value_wf(SpecValue::Obj(fs)) && matches_at(
                    s@,
                    i as int,
                    #[trigger] jcs_value(SpecValue::Obj(fs)),
                ) implies matches_at(s@, p as int, str_lit(fs[k].0)) by {
                assert(fs.take(k) == spec_fields_of(fields@));
                lemma_obj_witness_at(s@, i as int, fs, k, p as int);
            }
        }
        if p == len {
            proof {
                assert forall|fs: Seq<(Seq<char>, SpecValue)>|
                    spec_value_wf(SpecValue::Obj(fs)) && matches_at(
                        s@,
                        i as int,
                        #[trigger] jcs_value(SpecValue::Obj(fs)),
                    ) implies false by {
                    assert(str_lit(fs[k].0).len() >= 2);
                }
            }
            return None;
        }
        let ck = s.get_char(p);
        if ck != '"' {
            proof {
                assert forall|fs: Seq<(Seq<char>, SpecValue)>|
                    spec_value_wf(SpecValue::Obj(fs)) && matches_at(
                        s@,
                        i as int,
                        #[trigger] jcs_value(SpecValue::Obj(fs)),
                    ) implies false by {
                    lemma_matches_at_index(s@, p as int, str_lit(fs[k].0));
                    assert(s@[p as int] == str_lit(fs[k].0)[0]);
                    assert(str_lit(fs[k].0)[0] == '"');
                }
            }
            return None;
        }
        let (key, pc) = match parse_string(s, p) {
            Some(x) => x,
            None => {
                proof {
                    assert forall|fs: Seq<(Seq<char>, SpecValue)>|
                        spec_value_wf(SpecValue::Obj(fs)) && matches_at(
                            s@,
                            i as int,
                            #[trigger] jcs_value(SpecValue::Obj(fs)),
                        ) implies false by {
                        assert(matches_at(s@, p as int, str_lit(fs[k].0)));
                    }
                }
                return None;
            },
        };
        proof {
            // the key read is the key of member k of every rendered object
            assert forall|fs: Seq<(Seq<char>, SpecValue)>|
                spec_value_wf(SpecValue::Obj(fs)) && matches_at(
                    s@,
                    i as int,
                    #[trigger] jcs_value(SpecValue::Obj(fs)),
                ) implies key@ == fs[k].0 && pc == p + str_lit(fs[k].0).len() by {
                assert(matches_at(s@, p as int, str_lit(fs[k].0)));
            }
        }
        // the keys must be strictly ascending
        if fields.len() > 0 {
            let prev_ok = crate::text::str_lt(
                fields[fields.len() - 1].0.as_str(),
                key.as_str(),
            );
            if !prev_ok {
                proof {
                    assert forall|fs: Seq<(Seq<char>, SpecValue)>|
                        spec_value_wf(SpecValue::Obj(fs)) && matches_at(
                            s@,
                            i as int,
                            #[trigger] jcs_value(SpecValue::Obj(fs)),
                        ) implies false by {
                        crate::value::lemma_wf_obj_sorted(fs, k - 1, k);
                        assert(spec_fields_of(fields@)[k - 1] == fs.take(k)[k - 1]);
                        assert(fs.take(k)[k - 1] == fs[k - 1]);
                        assert(fields@[k - 1].0@ == fs[k - 1].0);
                        assert(key@ == fs[k].0);
                    }
                }
                return None;
            }
        }
        if pc == len {
            proof {
                assert forall|fs: Seq<(Seq<char>, SpecValue)>|
                    spec_value_wf(SpecValue::Obj(fs)) && matches_at(
                        s@,
                        i as int,
                        #[trigger] jcs_value(SpecValue::Obj(fs)),
                    ) implies false by {
                    assert(fs.take(k) == spec_fields_of(fields@));
                    lemma_obj_witness_at(s@, i as int, fs, k, p as int);
                }
            }
            return None;
        }
        if s.get_char(pc) != ':' {
            proof {
                assert forall|fs: Seq<(Seq<char>, SpecValue)>|
                    spec_value_wf(SpecValue::Obj(fs)) && matches_at(
                        s@,
                        i as int,
                        #[trigger] jcs_value(SpecValue::Obj(fs)),
                    ) implies false by {
                    assert(fs.take(k) == spec_fields_of(fields@));
                    lemma_obj_witness_at(s@, i as int, fs, k, p as int);
                    assert(s@[pc as int] == ':');
                }
            }
            return None;
        }
        let pv = pc + 1;
        proof {
            // place the value of member k
            assert forall|fs: Seq<(Seq<char>, SpecValue)>|
                spec_value_wf(SpecValue::Obj(fs)) && matches_at(
                    s@,
                    i as int,
                    #[trigger] jcs_value(SpecValue::Obj(fs)),
                ) implies matches_at(s@, pv as int, jcs_value(fs[k].1)) && follow_ok(
                s@,
                pv + jcs_value(fs[k].1).len(),
            ) && spec_value_wf(fs[k].1) by {
                assert(fs.take(k) == spec_fields_of(fields@));
                lemma_obj_witness_at(s@, i as int, fs, k, p as int);
                crate::value::lemma_wf_obj_field(fs, k);
            }
        }
        match parse_value(s, pv) {
            None => {
                proof {
                    assert forall|fs: Seq<(Seq<char>, SpecValue)>|
                        spec_value_wf(SpecValue::Obj(fs)) && matches_at(
                            s@,
                            i as int,
                            #[trigger] jcs_value(SpecValue::Obj(fs)),
                        ) implies false by {
                        assert(matches_at(s@, pv as int, jcs_value(fs[k].1)));
                    }
                }
                return None;
            },
            Some((v, q)) => {
                proof {
                    lemma_spec_fields_push(fields@, (key, v));
                    let sfn = spec_fields_of(fields@).push((key@, v@));
                    lemma_obj_body_snoc(sfn, k);
                    assert(sfn.take(k) =~= spec_fields_of(fields@));
                    assert(sfn.take(k + 1) =~= sfn);
                    assert(sfn[k] == (key@, v@));
                    assert(jcs_obj_entry((key@, v@)) == str_lit(key@) + seq![':'] + jcs_value(
                        v@,
                    ));
                    assert(s@.subrange(i + 1, q as int) =~= jcs_obj_body(sfn)) by {
                        assert(s@.subrange(p as int, pc as int) == str_lit(key@));
                        assert(s@.subrange(pv as int, q as int) == jcs_value(v@));
                        assert(s@.subrange(p as int, q as int) =~= str_lit(key@) + seq![':']
                            + jcs_value(v@)) by {
                            assert(forall|q2: int| 0 <= q2 < pc - p ==> s@.subrange(
                                p as int,
                                q as int,
                            )[q2] == #[trigger] s@.subrange(p as int, pc as int)[q2]);
                            assert(s@.subrange(p as int, q as int)[pc - p] == s@[pc as int]);
                            assert(s@[pc as int] == ':');
                            assert(forall|q2: int| 0 <= q2 < q - pv ==> s@.subrange(
                                p as int,
                                q as int,
                            )[pc - p + 1 + q2] == #[trigger] s@.subrange(
                                pv as int,
                                q as int,
                            )[q2]);
                        }
                        if k == 0 {
                            assert(s@.subrange(i + 1, q as int) =~= s@.subrange(
                                p as int,
                                q as int,
                            ));
                        } else {
                            assert(s@.subrange(i + 1, q as int) =~= s@.subrange(i + 1, p as int)
                                + s@.subrange(p as int, q as int));
                        }
                    }
                    // the member parsed is member k of every rendered object
                    assert forall|fs: Seq<(Seq<char>, SpecValue)>|
                        spec_value_wf(SpecValue::Obj(fs)) && matches_at(
                            s@,
                            i as int,
                            #[trigger] jcs_value(SpecValue::Obj(fs)),
                        ) implies v@ == fs[k].1 && q == pv + jcs_value(fs[k].1).len() && sfn
                        == fs.take(k + 1) by {
                        assert(matches_at(s@, pv as int, jcs_value(fs[k].1)));
                        assert(key@ == fs[k].0);
                        assert(fs.take(k + 1) =~= fs.take(k).push(fs[k]));
                    }
                }
                fields.push((key, v));
                p = q;
                let ghost sfn = spec_fields_of(fields@);
                proof {
                    lemma_spec_fields_of_index(fields@);
                    // the new member's key follows every earlier key
                    assert forall|q1: int, q2: int|
                        0 <= q1 < q2 < sfn.len() implies chars_lt(
                        (#[trigger] sfn[q1]).0,
                        (#[trigger] sfn[q2]).0,
                    ) by {
                        if q2 < k {
                        } else {
                            assert(q2 == k);
                            assert(sfn[k].0 == key@);
                            assert(chars_lt(sfn[k - 1].0, key@));
                            if q1 < k - 1 {
                                crate::text::lemma_chars_lt_transitive(
                                    sfn[q1].0,
                                    sfn[k - 1].0,
                                    key@,
                                );
                            }
                        }
                    }
                }
                if p == len {
                    proof {
                        assert forall|fs: Seq<(Seq<char>, SpecValue)>|
                            spec_value_wf(SpecValue::Obj(fs)) && matches_at(
                                s@,
                                i as int,
                                #[trigger] jcs_value(SpecValue::Obj(fs)),
                            ) implies false by {
                            assert(fs.take(k) == sfn.take(k));
                            lemma_obj_witness_at(s@, i as int, fs, k, (p - jcs_value(
                                fs[k].1,
                            ).len() - 1 - str_lit(fs[k].0).len()) as int);
                        }
                    }
                    return None;
                }
                let c = s.get_char(p);
                proof {
                    // what follows member k in every rendered object
                    assert forall|fs: Seq<(Seq<char>, SpecValue)>|
                        spec_value_wf(SpecValue::Obj(fs)) && matches_at(
                            s@,
                            i as int,
                            #[trigger] jcs_value(SpecValue::Obj(fs)),
                        ) implies k < fs.len() && sfn == fs.take(k + 1) && s@[p as int] == (if k
                        + 1 == fs.len() {
                        '}'
                    } else {
                        ','
                    }) && (k + 1 == fs.len() ==> p + 1 == i + jcs_value(
                        SpecValue::Obj(fs),
                    ).len()) && (k + 1 < fs.len() ==> p + 1 == i + 1 + (jcs_obj_body(
                        fs.take(k + 1),
                    ).len() + 1)) by {
                        assert(fs.take(k) == sfn.take(k)) by {
                            assert(sfn.take(k) =~= fs.take(k));
                        }
                        lemma_obj_witness_at(s@, i as int, fs, k, (p - jcs_value(
                            fs[k].1,
                        ).len() - 1 - str_lit(fs[k].0).len()) as int);
                    }
                }
                if c == '}' {
                    proof {
                        crate::value::lemma_wf_obj_intro(sfn);
                        let out = Value::Obj(fields);
                        assert(out@ == SpecValue::Obj(sfn));
                        assert(s@.subrange(i as int, p + 1) =~= jcs_value(SpecValue::Obj(sfn)))
                            by {
                            assert(s@.subrange(i as int, p + 1)[0] == s@[i as int]);
                            assert(s@.subrange(i as int, p + 1)[p - i] == s@[p as int]);
                            assert(forall|q2: int| 0 <= q2 < p - i - 1 ==> s@.subrange(
                                i as int,
                                p + 1,
                            )[q2 + 1] == #[trigger] s@.subrange(i + 1, p as int)[q2]);
                            assert(jcs_value(SpecValue::Obj(sfn)) == seq!['{'] + jcs_obj_body(
                                sfn,
                            ) + seq!['}']);
                        }
                        assert forall|fs: Seq<(Seq<char>, SpecValue)>|
                            spec_value_wf(SpecValue::Obj(fs)) && matches_at(
                                s@,
                                i as int,
                                #[trigger] jcs_value(SpecValue::Obj(fs)),
                            ) implies SpecValue::Obj(sfn) == SpecValue::Obj(fs) && p + 1 == i
                            + jcs_value(SpecValue::Obj(fs)).len() by {
                            if k + 1 < fs.len() {
                                assert(s@[p as int] == ',');
                            }
                            assert(k + 1 == fs.len());
                            assert(fs =~= fs.take(k + 1));
                        }
                    }
                    return Some((Value::Obj(fields), p + 1));
                } else if c == ',' {
                    proof {
                        assert(s@.subrange(i + 1, p + 1) =~= jcs_obj_body(sfn) + seq![','])
                            by {
                            assert(s@.subrange(i + 1, p + 1)[p - i - 1] == s@[p as int]);
                            assert(forall|q2: int| 0 <= q2 < p - i - 1 ==> s@.subrange(
                                i + 1,
                                p + 1,
                            )[q2] == #[trigger] s@.subrange(i + 1, p as int)[q2]);
                        }
                        assert forall|fs: Seq<(Seq<char>, SpecValue)>|
                            spec_value_wf(SpecValue::Obj(fs)) && matches_at(
                                s@,
                                i as int,
                                #[trigger] jcs_value(SpecValue::Obj(fs)),
                            ) implies fields@.len() < fs.len() && sfn == fs.take(
                            fields@.len() as int,
                        ) by {
                            if k + 1 == fs.len() {
                                assert(s@[p as int] == '}');
                            }
                        }
                    }
                    p = p + 1;
                } else {
                    proof {
                        assert forall|fs: Seq<(Seq<char>, SpecValue)>|
                            spec_value_wf(SpecValue::Obj(fs)) && matches_at(
                                s@,
                                i as int,
                                #[trigger] jcs_value(SpecValue::Obj(fs)),
                            ) implies false by {
                            assert(s@[p as int] == '}' || s@[p as int] == ',');
                        }
                    }
                    return None;
                }
            },
        }
    }
}

// Reads one value, of whatever kind the next character announces.
pub fn parse_value(s: &str, i: usize) -> (r: Option<(Value, usize)>)
    requires
        i <= s@.len(),
    ensures
        r matches Some(x) ==> i < x.1 <= s@.len() && spec_value_wf(x.0@) && s@.subrange(
            i as int,
            x.1 as int,
        ) == jcs_value(x.0@),
        forall|sv: SpecValue|
            spec_value_wf(sv) && matches_at(s@, i as int, #[trigger] jcs_value(sv)) && follow_ok(
                s@,
                i + jcs_value(sv).len(),
            ) ==> (r matches Some(x) && x.0@ == sv && x.1 == i + jcs_value(sv).len()),
    decreases s@.len() - i, 1int,
{
    let len = s.unicode_len();
    if i == len {
        proof {
            assert forall|sv: SpecValue|
                spec_value_wf(sv) && matches_at(s@, i as int, #[trigger] jcs_value(sv))
                    && follow_ok(s@, i + jcs_value(sv).len()) implies false by {
                lemma_jcs_first(sv);
            }
        }
        return None;
    }
    let c = s.get_char(i);
    proof {
        // the first character identifies the kind of any value rendered here
        assert forall|sv: SpecValue|
            spec_value_wf(sv) && matches_at(s@, i as int, #[trigger] jcs_value(sv)) implies
            jcs_value(sv)[0] == c by {
            lemma_matches_at_index(s@, i as int, jcs_value(sv));
            lemma_jcs_first(sv);
            assert(s@[i as int] == jcs_value(sv)[0]);
        }
    }
    if c == 'n' {
        expect_word(s, i, Value::Null)
    } else if c == 't' {
        expect_word(s, i, Value::Bool(true))
    } else if c == 'f' {
        expect_word(s, i, Value::Bool(false))
    } else if c == '"' {
        match parse_string(s, i) {
            Some((t, j)) => {
                proof {
                    assert forall|sv: SpecValue|
                        spec_value_wf(sv) && matches_at(s@, i as int, #[trigger] jcs_value(sv))
                            && follow_ok(s@, i + jcs_value(sv).len()) implies sv
                        == spec_value_of(Value::Text(t)) && j == i + jcs_value(sv).len() by {
                        lemma_jcs_first(sv);
                        assert(sv is Text) by {
                            assert(!is_digit('"'));
                        }
                        assert(matches_at(s@, i as int, str_lit(sv->Text_0)));
                    }
                }
                Some((Value::Text(t), j))
            },
            None => {
                proof {
                    assert forall|sv: SpecValue|
                        spec_value_wf(sv) && matches_at(s@, i as int, #[trigger] jcs_value(sv))
                            && follow_ok(s@, i + jcs_value(sv).len()) implies false by {
                        lemma_jcs_first(sv);
                        assert(sv is Text) by {
                            assert(!is_digit('"'));
                        }
                        assert(matches_at(s@, i as int, str_lit(sv->Text_0)));
                    }
                }
                None
            },
        }
    } else if c == '[' {
        let r = parse_array(s, i);
        proof {
            assert forall|sv: SpecValue|
                spec_value_wf(sv) && matches_at(s@, i as int, #[trigger] jcs_value(sv))
                    && follow_ok(s@, i + jcs_value(sv).len()) implies (r matches Some(x) && x.0@
                == sv && x.1 == i + jcs_value(sv).len()) by {
                lemma_jcs_first(sv);
                assert(sv is Arr) by {
                    assert(!is_digit('['));
                }
                assert(sv == SpecValue::Arr(sv->Arr_0));
            }
        }
        r
    } else if c == '{' {
        let r = parse_object(s, i);
        proof {
            assert forall|sv: SpecValue|
                spec_value_wf(sv) && matches_at(s@, i as int, #[trigger] jcs_value(sv))
                    && follow_ok(s@, i + jcs_value(sv).len()) implies (r matches Some(x) && x.0@
                == sv && x.1 == i + jcs_value(sv).len()) by {
                lemma_jcs_first(sv);
                assert(sv is Obj) by {
                    assert(!is_digit('{'));
                }
                assert(sv == SpecValue::Obj(sv->Obj_0));
            }
        }
        r
    } else if c == '-' || exec_is_digit(c) {
        match parse_int(s, i) {
            Some((n, j)) => {
                // for any rendered value here, the number read is its value
                proof {
                    assert forall|sv: SpecValue|
                        spec_value_wf(sv) && matches_at(s@, i as int, #[trigger] jcs_value(sv))
                            && follow_ok(s@, i + jcs_value(sv).len()) implies sv
                        == SpecValue::Int(n as int) && j == i + jcs_value(sv).len() by {
                        lemma_jcs_first(sv);
                        assert(sv is Int) by {
                            if sv is Null {
                                assert(!is_digit('n'));
                            }
                            if sv is Bool {
                                assert(!is_digit('t') && !is_digit('f'));
                            }
                            if sv is Text {
                                assert(!is_digit('"'));
                            }
                            if sv is Arr {
                                assert(!is_digit('['));
                            }
                            if sv is Obj {
                                assert(!is_digit('{'));
                            }
                        }
                        assert(matches_at(s@, i as int, int_str(sv->Int_0)));
                    }
                }
                if n > crate::value::MAX_CANONICAL_INT || n < -crate::value::MAX_CANONICAL_INT {
                    // a longer number than any canonical value renders
                    proof {
                        assert forall|sv: SpecValue|
                            spec_value_wf(sv) && matches_at(
                                s@,
                                i as int,
                                #[trigger] jcs_value(sv),
                            ) && follow_ok(s@, i + jcs_value(sv).len()) implies false by {
                            assert(sv == SpecValue::Int(n as int));
                        }
                    }
                    return None;
                }
                proof {
                    assert(spec_value_wf(spec_value_of(Value::Int(n))));
                }
                Some((Value::Int(n), j))
            },
            None => {
                proof {
                    assert forall|sv: SpecValue|
                        spec_value_wf(sv) && matches_at(s@, i as int, #[trigger] jcs_value(sv))
                            && follow_ok(s@, i + jcs_value(sv).len()) implies false by {
                        lemma_jcs_first(sv);
                        assert(sv is Int) by {
                            if sv is Null {
                                assert(!is_digit('n'));
                            }
                            if sv is Bool {
                                assert(!is_digit('t') && !is_digit('f'));
                            }
                            if sv is Text {
                                assert(!is_digit('"'));
                            }
                            if sv is Arr {
                                assert(!is_digit('['));
                            }
                            if sv is Obj {
                                assert(!is_digit('{'));
                            }
                        }
                        assert(matches_at(s@, i as int, int_str(sv->Int_0)));
                    }
                }
                None
            },
        }
    } else {
        proof {
            assert forall|sv: SpecValue|
                spec_value_wf(sv) && matches_at(s@, i as int, #[trigger] jcs_value(sv))
                    && follow_ok(s@, i + jcs_value(sv).len()) implies false by {
                lemma_jcs_first(sv);
            }
        }
        None
    }
}

// Matches the fixed keyword of a value, one of "null", "true" or "false".
#[verifier::loop_isolation(false)]
fn expect_word(s: &str, i: usize, w: Value) -> (r: Option<(Value, usize)>)
    requires
        i < s@.len(),
        w is Null || w is Bool,
        s@[i as int] == jcs_value(spec_value_of(w))[0],
        forall|sv: SpecValue|
            spec_value_wf(sv) && matches_at(s@, i as int, #[trigger] jcs_value(sv)) ==> jcs_value(
                sv,
            )[0] == s@[i as int],
    ensures
        r matches Some(x) ==> i < x.1 <= s@.len() && spec_value_wf(x.0@) && s@.subrange(
            i as int,
            x.1 as int,
        ) == jcs_value(x.0@),
        forall|sv: SpecValue|
            spec_value_wf(sv) && matches_at(s@, i as int, #[trigger] jcs_value(sv)) && follow_ok(
                s@,
                i + jcs_value(sv).len(),
            ) ==> (r matches Some(x) && x.0@ == sv && x.1 == i + jcs_value(sv).len()),
{
    let ghost word = jcs_value(spec_value_of(w));
    proof {
        // a value rendered here is this keyword's value
        assert forall|sv: SpecValue|
            spec_value_wf(sv) && matches_at(s@, i as int, #[trigger] jcs_value(sv)) implies sv
            == spec_value_of(w) by {
            lemma_jcs_first(sv);
            assert(jcs_value(sv)[0] == s@[i as int]);
            if w is Null {
                assert(sv is Null) by {
                    assert(!is_digit('n'));
                }
            } else if w->Bool_0 {
                assert(sv is Bool && sv->Bool_0) by {
                    assert(!is_digit('t'));
                }
            } else {
                assert(sv is Bool && !sv->Bool_0) by {
                    assert(!is_digit('f'));
                }
            }
        }
        assert(word.len() == 4 || word.len() == 5);
    }
    let len = s.unicode_len();
    let n: usize = if matches!(w, Value::Bool(false)) {
        5
    } else {
        4
    };
    proof {
        assert(n == word.len());
    }
    if len - i < n {
        proof {
            assert forall|sv: SpecValue|
                spec_value_wf(sv) && matches_at(s@, i as int, #[trigger] jcs_value(sv))
                    && follow_ok(s@, i + jcs_value(sv).len()) implies false by {
                assert(jcs_value(sv) == word);
            }
        }
        return None;
    }
    let mut k: usize = 1;
    while k < n
        invariant
            1 <= k <= n,
            i + n <= s@.len(),
            n == word.len(),
            word == jcs_value(spec_value_of(w)),
            forall|q: int| 0 <= q < k ==> s@[i + q] == word[q],
        decreases n - k,
    {
        let expected = word_char(&w, k);
        if s.get_char(i + k) != expected {
            proof {
                assert forall|sv: SpecValue|
                    spec_value_wf(sv) && matches_at(s@, i as int, #[trigger] jcs_value(sv))
                        && follow_ok(s@, i + jcs_value(sv).len()) implies false by {
                    assert(jcs_value(sv) == word);
                    lemma_matches_at_index(s@, i as int, word);
                    assert(s@[i + k] == word[k as int]);
                }
            }
            return None;
        }
        k = k + 1;
    }
    proof {
        assert(s@.subrange(i as int, i + n) =~= word) by {
            assert(forall|q: int| 0 <= q < n ==> #[trigger] s@.subrange(i as int, i + n)[q] == s@[i + q]);
        }
        assert(spec_value_wf(spec_value_of(w)));
        assert forall|sv: SpecValue|
            spec_value_wf(sv) && matches_at(s@, i as int, #[trigger] jcs_value(sv)) && follow_ok(
                s@,
                i + jcs_value(sv).len(),
            ) implies i + jcs_value(sv).len() == i + n by {
            assert(jcs_value(sv) == word);
        }
    }
    Some((w, i + n))
}

// The characters of the fixed keywords.
fn word_char(w: &Value, k: usize) -> (c: char)
    requires
        w is Null || w is Bool,
        0 <= k < jcs_value(spec_value_of(*w)).len(),
    ensures
        c == jcs_value(spec_value_of(*w))[k as int],
{
    match w {
        Value::Null => {
            if k == 0 { 'n' } else if k == 1 { 'u' } else if k == 2 { 'l' } else { 'l' }
        },
        Value::Bool(b) => {
            if *b {
                if k == 0 { 't' } else if k == 1 { 'r' } else if k == 2 { 'u' } else { 'e' }
            } else {
                if k == 0 { 'f' } else if k == 1 { 'a' } else if k == 2 { 'l' } else if k == 3 {
                    's'
                } else {
                    'e'
                }
            }
        },
        _ => {
            proof {
                assert(false);
            }
            'x'
        },
    }
}

// Parses a whole canonical text into its value.
pub fn parse_value_text(s: &str) -> (r: Option<Value>)
    ensures
        r matches Some(v) ==> spec_value_wf(v@) && s@ == jcs_value(v@),
        forall|sv: SpecValue|
            spec_value_wf(sv) && s@ == jcs_value(sv) ==> (r matches Some(v) && v@ == sv),
{
    let len = s.unicode_len();
    match parse_value(s, 0) {
        Some((v, j)) => {
            if j == len {
                proof {
                    assert(s@.subrange(0, s@.len() as int) =~= s@);
                }
                Some(v)
            } else {
                proof {
                    assert forall|sv: SpecValue|
                        spec_value_wf(sv) && s@ == jcs_value(sv) implies false by {
                        assert(s@.subrange(0, s@.len() as int) =~= s@);
                        assert(matches_at(s@, 0, jcs_value(sv)));
                        assert(follow_ok(s@, jcs_value(sv).len() as int));
                    }
                }
                None
            }
        },
        None => {
            proof {
                assert forall|sv: SpecValue|
                    spec_value_wf(sv) && s@ == jcs_value(sv) implies false by {
                    assert(s@.subrange(0, s@.len() as int) =~= s@);
                    assert(matches_at(s@, 0, jcs_value(sv)));
                    assert(follow_ok(s@, jcs_value(sv).len() as int));
                }
            }
            None
        },
    }
}

proof fn lemma_digits_val_nonneg(ds: Seq<char>)
    requires
        forall|t: int| 0 <= t < ds.len() ==> is_digit(#[trigger] ds[t]),
    ensures
        digits_val(ds) >= 0,
    decreases ds.len(),
{
    if ds.len() > 0 {
        assert(forall|t: int| 0 <= t < ds.len() - 1 ==> #[trigger] ds.drop_last()[t] == ds[t]);
        lemma_digits_val_nonneg(ds.drop_last());
        assert(digits_val(ds) >= 0) by (nonlinear_arith)
            requires
                digits_val(ds) == digits_val(ds.drop_last()) * 10 + digit_val(ds.last()),
                digits_val(ds.drop_last()) >= 0,
                digit_val(ds.last()) >= 0,
        ;
    }
}

} // verus!
