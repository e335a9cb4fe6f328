use vstd::prelude::*;

use crate::text::chars_lt;

verus! {

// Names the result of char::is_alphanumeric, which depends on the character
// alone (Unicode letter and number tables).
pub uninterp spec fn char_alphanumeric(c: char) -> bool;

/// Relies on char::is_alphanumeric: true exactly for Unicode letters and
/// numbers; '/' is punctuation, so it is never alphanumeric.
#[verifier::external_body]
fn exec_char_alphanumeric(c: char) -> (r: bool)
    ensures
        r == char_alphanumeric(c),
        c == '/' ==> !r,
{
    c.is_alphanumeric()
}

// The symbols allowed in ability namespaces and names besides alphanumerics.
pub open spec fn allowed_symbol(c: char) -> bool {
    c == '-' || c == '_' || c == '.' || c == '+' || c == '*'
}

pub open spec fn ability_char_ok(c: char) -> bool {
    (char_alphanumeric(c) && c != '/') || allowed_symbol(c)
}

// A valid half of an ability: non-empty, every character alphanumeric or an
// allowed symbol.  In particular it never contains '/'.
pub open spec fn valid_ability_part(s: Seq<char>) -> bool {
    s.len() > 0 && forall|i: int| 0 <= i < s.len() ==> ability_char_ok(#[trigger] s[i])
}

pub fn not_allowed(c: char) -> (r: bool)
    ensures
        r == !ability_char_ok(c),
{
    let alnum = exec_char_alphanumeric(c);
    !(alnum || c == '-' || c == '_' || c == '.' || c == '+' || c == '*')
}

#[derive(Debug, Hash, PartialEq, Eq)]
pub struct AbilityNamespace {
    text: String,
}

#[derive(Debug, Hash, PartialEq, Eq)]
pub struct AbilityName {
    text: String,
}

#[derive(Debug, Hash)]
pub struct Ability {
    namespace: AbilityNamespace,
    name: AbilityName,
}

impl Clone for AbilityNamespace {
    fn clone(&self) -> (r: Self)
        ensures
            r == *self,
    {
        proof {
            use_type_invariant(&*self);
        }
        AbilityNamespace { text: self.text.clone() }
    }
}

impl Clone for AbilityName {
    fn clone(&self) -> (r: Self)
        ensures
            r == *self,
    {
        proof {
            use_type_invariant(&*self);
        }
        AbilityName { text: self.text.clone() }
    }
}

impl Clone for Ability {
    fn clone(&self) -> (r: Self)
        ensures
            r == *self,
    {
        proof {
            use_type_invariant(&*self);
        }
        Ability { namespace: self.namespace.clone(), name: self.name.clone() }
    }
}

impl View for AbilityNamespace {
    type V = Seq<char>;

    closed spec fn view(&self) -> Seq<char> {
        self.text@
    }
}

// Every reachable value of these types was built from a successful parse, so
// validity is a type invariant.
impl AbilityNamespace {
    #[verifier::type_invariant]
    pub open spec fn inv(self) -> bool {
        valid_ability_part(self@)
    }
}

impl AbilityName {
    #[verifier::type_invariant]
    pub open spec fn inv(self) -> bool {
        valid_ability_part(self@)
    }
}

impl Ability {
    #[verifier::type_invariant]
    pub open spec fn inv(self) -> bool {
        ability_wf(self@)
    }
}

impl View for AbilityName {
    type V = Seq<char>;

    closed spec fn view(&self) -> Seq<char> {
        self.text@
    }
}

impl View for Ability {
    type V = (Seq<char>, Seq<char>);

    closed spec fn view(&self) -> (Seq<char>, Seq<char>) {
        (self.namespace@, self.name@)
    }
}

// The logical byte sequence an ability is compared and rendered by:
// namespace, separator, name.
pub open spec fn ability_text(v: (Seq<char>, Seq<char>)) -> Seq<char> {
    v.0 + seq!['/'] + v.1
}

pub open spec fn ability_wf(v: (Seq<char>, Seq<char>)) -> bool {
    valid_ability_part(v.0) && valid_ability_part(v.1)
}

// The total order on abilities: lexicographic over the rendered text, a
// strict prefix ordering first.
pub open spec fn ability_lt(x: (Seq<char>, Seq<char>), y: (Seq<char>, Seq<char>)) -> bool {
    chars_lt(ability_text(x), ability_text(y))
}

#[derive(Debug, PartialEq, Eq)]
pub enum AbilityParseError {
    InvalidCharacter(String),
}

#[derive(Debug, PartialEq, Eq)]
pub enum ActionParseError {
    MissingSeparator,
    Namespace(AbilityParseError),
    Name(AbilityParseError),
}

// Scans a string slice for validity as an ability half.
pub(crate) fn scan_part(s: &str) -> (r: bool)
    ensures
        r == valid_ability_part(s@),
{
    let n = s.unicode_len();
    if n == 0 {
        return false;
    }
    let mut i: usize = 0;
    while i < n
        invariant
            i <= n,
            n == s@.len(),
            forall|k: int| 0 <= k < i ==> ability_char_ok(#[trigger] s@[k]),
        decreases n - i,
    {
        if not_allowed(s.get_char(i)) {
            return false;
        }
        i = i + 1;
    }
    true
}

impl AbilityNamespace {
    pub fn parse(s: &str) -> (r: Result<AbilityNamespace, AbilityParseError>)
        ensures
            r matches Ok(a) ==> valid_ability_part(s@) && a@ == s@,
            r matches Err(e) ==> !valid_ability_part(s@) && (e matches
                AbilityParseError::InvalidCharacter(t) && t@ == s@),
    {
        if scan_part(s) {
            Ok(AbilityNamespace { text: s.to_owned() })
        } else {
            Err(AbilityParseError::InvalidCharacter(s.to_owned()))
        }
    }

    pub fn as_str(&self) -> (r: &str)
        ensures
            r@ == self@,
    {
        self.text.as_str()
    }
}

impl AbilityName {
    pub fn parse(s: &str) -> (r: Result<AbilityName, AbilityParseError>)
        ensures
            r matches Ok(a) ==> valid_ability_part(s@) && a@ == s@,
            r matches Err(e) ==> !valid_ability_part(s@) && (e matches
                AbilityParseError::InvalidCharacter(t) && t@ == s@),
    {
        if scan_part(s) {
            Ok(AbilityName { text: s.to_owned() })
        } else {
            Err(AbilityParseError::InvalidCharacter(s.to_owned()))
        }
    }

    pub fn as_str(&self) -> (r: &str)
        ensures
            r@ == self@,
    {
        self.text.as_str()
    }
}

// Index of the first occurrence of a character, if any.
pub open spec fn find_char(s: Seq<char>, c: char) -> Option<int>
    decreases s.len(),
{
    if s.len() == 0 {
        None
    } else if s[0] == c {
        Some(0)
    } else {
        match find_char(s.skip(1), c) {
            None => None,
            Some(i) => Some(i + 1),
        }
    }
}

pub proof fn lemma_find_char_some(s: Seq<char>, c: char, i: int)
    requires
        0 <= i < s.len(),
        s[i] == c,
        forall|k: int| 0 <= k < i ==> s[k] != c,
    ensures
        find_char(s, c) == Some(i),
    decreases s.len(),
{
    if i > 0 {
        assert(s.skip(1)[i - 1] == s[i]);
        assert(forall|k: int| 0 <= k < i - 1 ==> #[trigger] s.skip(1)[k] == s[k + 1]);
        lemma_find_char_some(s.skip(1), c, i - 1);
    }
}

pub proof fn lemma_find_char_props(s: Seq<char>, c: char)
    ensures
        find_char(s, c) matches Some(i) ==> 0 <= i < s.len() && s[i] == c && (forall|k: int|
            0 <= k < i ==> s[k] != c),
    decreases s.len(),
{
    if s.len() > 0 && s[0] != c {
        lemma_find_char_props(s.skip(1), c);
        assert(forall|k: int| 0 <= k < s.len() - 1 ==> #[trigger] s.skip(1)[k] == s[k + 1]);
        match find_char(s.skip(1), c) {
            None => {
            },
            Some(i2) => {
                assert(find_char(s, c) == Some(i2 + 1));
                assert(s[i2 + 1] == s.skip(1)[i2]);
                assert forall|k: int| 0 <= k < i2 + 1 implies s[k] != c by {
                    if k >= 1 {
                        assert(s.skip(1)[k - 1] != c);
                    }
                }
            },
        }
    }
}

pub proof fn lemma_find_char_none(s: Seq<char>, c: char)
    requires
        forall|k: int| 0 <= k < s.len() ==> s[k] != c,
    ensures
        find_char(s, c) is None,
    decreases s.len(),
{
    if s.len() > 0 {
        assert(forall|k: int| 0 <= k < s.len() - 1 ==> #[trigger] s.skip(1)[k] == s[k + 1]);
        lemma_find_char_none(s.skip(1), c);
    }
}

pub(crate) fn find_slash(s: &str) -> (r: Option<usize>)
    ensures
        r is None ==> find_char(s@, '/') is None,
        r matches Some(i) ==> i < s@.len() && find_char(s@, '/') == Some(i as int),
{
    let n = s.unicode_len();
    let mut i: usize = 0;
    while i < n
        invariant
            i <= n,
            n == s@.len(),
            forall|k: int| 0 <= k < i ==> s@[k] != '/',
        decreases n - i,
    {
        if s.get_char(i) == '/' {
            proof {
                lemma_find_char_some(s@, '/', i as int);
            }
            return Some(i);
        }
        i = i + 1;
    }
    proof {
        lemma_find_char_none(s@, '/');
    }
    None
}

impl Ability {
    pub fn namespace(&self) -> (r: &AbilityNamespace)
        ensures
            r@ == self@.0,
    {
        &self.namespace
    }

    pub fn name(&self) -> (r: &AbilityName)
        ensures
            r@ == self@.1,
    {
        &self.name
    }

    pub fn new(namespace: AbilityNamespace, name: AbilityName) -> (r: Self)
        ensures
            r@ == (namespace@, name@),
    {
        proof {
            use_type_invariant(&namespace);
            use_type_invariant(&name);
        }
        Ability { namespace, name }
    }

    /// Length in bytes of the rendered form "namespace/name".
    pub fn len(&self) -> (r: usize)
        requires
            vstd::utf8::encode_utf8(self@.0).len() + vstd::utf8::encode_utf8(self@.1).len() + 1
                <= usize::MAX,
        ensures
            r == vstd::utf8::encode_utf8(self@.0).len() + vstd::utf8::encode_utf8(self@.1).len()
                + 1,
    {
        self.namespace.text.as_str().len() + self.name.text.as_str().len() + 1
    }

    pub fn is_empty(&self) -> (r: bool)
        ensures
            r == (self@.0.len() == 0 && self@.1.len() == 0),
    {
        self.namespace.text.as_str().is_empty() && self.name.text.as_str().is_empty()
    }

    /// Renders the canonical "namespace/name" form.
    pub fn to_text(&self) -> (r: String)
        ensures
            r@ == ability_text(self@),
    {
        let mut out = self.namespace.text.clone();
        crate::text::push_char(&mut out, '/');
        let out2 = out.concat(self.name.text.as_str());
        proof {
            assert(out2@ =~= ability_text(self@));
        }
        out2
    }

    /// Parses "namespace/name", splitting at the first '/'.
    pub fn parse(s: &str) -> (r: Result<Ability, ActionParseError>)
        ensures
            find_char(s@, '/') is None ==> r == Err::<Ability, ActionParseError>(
                ActionParseError::MissingSeparator,
            ),
            find_char(s@, '/') matches Some(i) ==> {
                let ns = s@.take(i);
                let name = s@.skip(i + 1);
                &&& (r matches Ok(a) ==> valid_ability_part(ns) && valid_ability_part(name)
                    && a@ == (ns, name))
                &&& (r is Err ==> !(valid_ability_part(ns) && valid_ability_part(name)))
                &&& (!valid_ability_part(ns) ==> (r matches Err(e) && (e matches
                    ActionParseError::Namespace(AbilityParseError::InvalidCharacter(t)) && t@
                    == ns)))
                &&& (valid_ability_part(ns) && !valid_ability_part(name) ==> (r matches Err(e)
                    && (e matches ActionParseError::Name(
                    AbilityParseError::InvalidCharacter(t),
                ) && t@ == name)))
            },
    {
        let n = s.unicode_len();
        match find_slash(s) {
            None => Err(ActionParseError::MissingSeparator),
            Some(idx) => {
                let ns_str = s.substring_char(0, idx);
                let name_str = s.substring_char(idx + 1, n);
                proof {
                    assert(ns_str@ =~= s@.take(idx as int));
                    assert(name_str@ =~= s@.skip(idx + 1));
                }
                let namespace = match AbilityNamespace::parse(ns_str) {
                    Ok(ns) => ns,
                    Err(e) => {
                        return Err(ActionParseError::Namespace(e));
                    },
                };
                let name = match AbilityName::parse(name_str) {
                    Ok(nm) => nm,
                    Err(e) => {
                        return Err(ActionParseError::Name(e));
                    },
                };
                Ok(Ability { namespace, name })
            },
        }
    }
}

pub proof fn lemma_ability_text_chars(v: (Seq<char>, Seq<char>))
    ensures
        ability_text(v).len() == v.0.len() + 1 + v.1.len(),
        forall|k: int| 0 <= k < v.0.len() ==> ability_text(v)[k] == v.0[k],
        ability_text(v)[v.0.len() as int] == '/',
        forall|k: int| 0 <= k < v.1.len() ==> ability_text(v)[v.0.len() + 1 + k] == v.1[k],
{
    assert(ability_text(v)[v.0.len() as int] == seq!['/'][0]);
    assert forall|k: int| 0 <= k < v.1.len() implies ability_text(v)[v.0.len() + 1 + k]
        == v.1[k] by {
        assert((v.0 + seq!['/']).len() == v.0.len() + 1);
    }
}

// Within the rendered text the separator position determines the halves, so
// well-formed abilities with the same text are the same ability.
pub proof fn lemma_ability_text_injective(x: (Seq<char>, Seq<char>), y: (Seq<char>, Seq<char>))
    requires
        ability_wf(x),
        ability_wf(y),
        ability_text(x) == ability_text(y),
    ensures
        x == y,
{
    lemma_ability_text_chars(x);
    lemma_ability_text_chars(y);
    let t = ability_text(x);
    if x.0.len() < y.0.len() {
        assert(ability_char_ok(y.0[x.0.len() as int]));
        assert(t[x.0.len() as int] == '/');
        assert(false);
    }
    if y.0.len() < x.0.len() {
        assert(ability_char_ok(x.0[y.0.len() as int]));
        assert(t[y.0.len() as int] == '/');
        assert(false);
    }
    assert(x.0 =~= y.0);
    assert forall|k: int| 0 <= k < x.1.len() implies x.1[k] == y.1[k] by {
        assert(t[x.0.len() + 1 + k] == x.1[k]);
        assert(t[y.0.len() + 1 + k] == y.1[k]);
    }
    assert(x.1 =~= y.1);
}

// Splitting the rendered text at its first separator recovers the halves.
pub proof fn lemma_ability_text_parse(av: (Seq<char>, Seq<char>))
    requires
        ability_wf(av),
    ensures
        find_char(ability_text(av), '/') == Some(av.0.len() as int),
        ability_text(av).take(av.0.len() as int) == av.0,
        ability_text(av).skip(av.0.len() + 1int) == av.1,
{
    lemma_ability_text_chars(av);
    let t = ability_text(av);
    assert forall|k: int| 0 <= k < av.0.len() implies t[k] != '/' by {
        assert(t[k] == av.0[k]);
        assert(ability_char_ok(av.0[k]));
    }
    lemma_find_char_some(t, '/', av.0.len() as int);
    assert(t.take(av.0.len() as int) =~= av.0);
    assert(t.skip(av.0.len() + 1int) =~= av.1);
}

// Joining the halves found at the first separator recovers the text.
pub proof fn lemma_ability_text_reassemble(s: Seq<char>, i: int)
    requires
        0 <= i < s.len(),
        s[i] == '/',
    ensures
        ability_text((s.take(i), s.skip(i + 1))) == s,
{
    lemma_ability_text_chars((s.take(i), s.skip(i + 1)));
    assert(ability_text((s.take(i), s.skip(i + 1))) =~= s);
}

/// The ability order never relates an ability to itself.
pub proof fn lemma_ability_lt_irreflexive(x: (Seq<char>, Seq<char>))
    ensures
        !ability_lt(x, x),
{
    crate::text::lemma_chars_lt_irreflexive(ability_text(x));
}

/// The ability order is transitive.
pub proof fn lemma_ability_lt_transitive(
    x: (Seq<char>, Seq<char>),
    y: (Seq<char>, Seq<char>),
    z: (Seq<char>, Seq<char>),
)
    requires
        ability_lt(x, y),
        ability_lt(y, z),
    ensures
        ability_lt(x, z),
{
    crate::text::lemma_chars_lt_transitive(ability_text(x), ability_text(y), ability_text(z));
}

/// Any two well-formed abilities are ordered one way, the other way, or are
/// the same ability, and never more than one of these at once.
pub proof fn lemma_ability_lt_trichotomy(x: (Seq<char>, Seq<char>), y: (Seq<char>, Seq<char>))
    requires
        ability_wf(x),
        ability_wf(y),
    ensures
        ability_lt(x, y) || ability_lt(y, x) || x == y,
        !(ability_lt(x, y) && ability_lt(y, x)),
        ability_lt(x, y) ==> x != y,
{
    crate::text::lemma_chars_lt_connected(ability_text(x), ability_text(y));
    if ability_text(x) == ability_text(y) {
        lemma_ability_text_injective(x, y);
    }
    if ability_lt(x, y) {
        crate::text::lemma_chars_lt_asymmetric(ability_text(x), ability_text(y));
        lemma_ability_lt_irreflexive(x);
    }
}

// A difference at position d, after equal prefixes, decides the order.
proof fn lemma_order_at_diff(x: Seq<char>, y: Seq<char>, d: int)
    requires
        0 <= d < x.len(),
        d < y.len(),
        forall|k: int| 0 <= k < d ==> x[k] == y[k],
        x[d] != y[d],
    ensures
        chars_lt(x, y) == ((x[d] as u32) < (y[d] as u32)),
        chars_lt(y, x) == ((y[d] as u32) < (x[d] as u32)),
{
    crate::text::lemma_chars_lt_skip_common(x, y, d);
    crate::text::lemma_chars_lt_skip_common(y, x, d);
    assert(x.skip(d)[0] == x[d]);
    assert(y.skip(d)[0] == y[d]);
}

// A strict prefix orders before any extension of it.
proof fn lemma_order_at_prefix(x: Seq<char>, y: Seq<char>, d: int)
    requires
        0 <= d == x.len(),
        d < y.len(),
        forall|k: int| 0 <= k < d ==> x[k] == y[k],
    ensures
        chars_lt(x, y),
        !chars_lt(y, x),
{
    crate::text::lemma_chars_lt_skip_common(x, y, d);
    crate::text::lemma_chars_lt_skip_common(y, x, d);
    assert(x.skip(d).len() == 0);
    assert(y.skip(d).len() > 0);
}

impl PartialEq for Ability {
    fn eq(&self, other: &Self) -> (r: bool) {
        let r = crate::text::str_eq(self.namespace.text.as_str(), other.namespace.text.as_str())
            && crate::text::str_eq(self.name.text.as_str(), other.name.text.as_str());
        r
    }
}

impl vstd::std_specs::cmp::PartialEqSpecImpl for Ability {
    open spec fn obeys_eq_spec() -> bool {
        true
    }

    open spec fn eq_spec(&self, other: &Self) -> bool {
        self@ == other@
    }
}

impl vstd::std_specs::cmp::PartialOrdSpecImpl for Ability {
    open spec fn obeys_partial_cmp_spec() -> bool {
        true
    }

    open spec fn partial_cmp_spec(&self, other: &Self) -> Option<core::cmp::Ordering> {
        if ability_lt(self@, other@) {
            Some(core::cmp::Ordering::Less)
        } else if ability_lt(other@, self@) {
            Some(core::cmp::Ordering::Greater)
        } else {
            Some(core::cmp::Ordering::Equal)
        }
    }
}

impl PartialOrd for Ability {
    // Compares namespace bytes, the separator, then name bytes, without
    // rendering either operand.
    fn partial_cmp(&self, other: &Self) -> (r: Option<core::cmp::Ordering>) {
        proof {
            use_type_invariant(&*self);
            use_type_invariant(&*other);
            lemma_ability_text_chars(self@);
            lemma_ability_text_chars(other@);
        }
        let ghost ta = ability_text(self@);
        let ghost tb = ability_text(other@);
        let nsa = self.namespace.text.as_str();
        let nsb = other.namespace.text.as_str();
        let la = nsa.unicode_len();
        let lb = nsb.unicode_len();
        let d = crate::text::first_difference(nsa, nsb);
        if d < la && d < lb {
            let ca = nsa.get_char(d);
            let cb = nsb.get_char(d);
            proof {
                vstd::utf8::char_u32_cast(ca, ca as u32);
                vstd::utf8::char_u32_cast(cb, cb as u32);
                lemma_order_at_diff(ta, tb, d as int);
            }
            if (ca as u32) < (cb as u32) {
                Some(core::cmp::Ordering::Less)
            } else {
                Some(core::cmp::Ordering::Greater)
            }
        } else if la < lb {
            // self's namespace is a strict prefix of other's: the separator
            // meets an ordinary namespace character.
            let cb = nsb.get_char(la);
            proof {
                assert(ta[la as int] == '/');
                assert(tb[la as int] == nsb@[la as int]);
                assert(ability_char_ok(nsb@[la as int]));
                vstd::utf8::char_u32_cast('/', '/' as u32);
                vstd::utf8::char_u32_cast(cb, cb as u32);
                lemma_order_at_diff(ta, tb, la as int);
            }
            if ('/' as u32) < (cb as u32) {
                Some(core::cmp::Ordering::Less)
            } else {
                Some(core::cmp::Ordering::Greater)
            }
        } else if lb < la {
            let ca = nsa.get_char(lb);
            proof {
                assert(tb[lb as int] == '/');
                assert(ta[lb as int] == nsa@[lb as int]);
                assert(ability_char_ok(nsa@[lb as int]));
                vstd::utf8::char_u32_cast('/', '/' as u32);
                vstd::utf8::char_u32_cast(ca, ca as u32);
                lemma_order_at_diff(ta, tb, lb as int);
            }
            if (ca as u32) < ('/' as u32) {
                Some(core::cmp::Ordering::Less)
            } else {
                Some(core::cmp::Ordering::Greater)
            }
        } else {
            // namespaces are equal; the order is decided by the names.
            proof {
                assert(nsa@ =~= nsb@);
                assert forall|k: int| 0 <= k < la + 1 implies ta[k] == tb[k] by {
                    if k < la {
                        assert(ta[k] == nsa@[k]);
                        assert(tb[k] == nsb@[k]);
                    }
                }
                crate::text::lemma_chars_lt_skip_common(ta, tb, la + 1);
                crate::text::lemma_chars_lt_skip_common(tb, ta, la + 1);
                assert(ta.skip(la + 1) =~= self@.1);
                assert(tb.skip(la + 1) =~= other@.1);
            }
            let na = self.name.text.as_str();
            let nb = other.name.text.as_str();
            let ma = na.unicode_len();
            let mb = nb.unicode_len();
            let d2 = crate::text::first_difference(na, nb);
            if d2 < ma && d2 < mb {
                let ca = na.get_char(d2);
                let cb = nb.get_char(d2);
                proof {
                    vstd::utf8::char_u32_cast(ca, ca as u32);
                    vstd::utf8::char_u32_cast(cb, cb as u32);
                    lemma_order_at_diff(na@, nb@, d2 as int);
                }
                if (ca as u32) < (cb as u32) {
                    Some(core::cmp::Ordering::Less)
                } else {
                    Some(core::cmp::Ordering::Greater)
                }
            } else if ma < mb {
                proof {
                    lemma_order_at_prefix(na@, nb@, ma as int);
                }
                Some(core::cmp::Ordering::Less)
            } else if mb < ma {
                proof {
                    lemma_order_at_prefix(nb@, na@, mb as int);
                }
                Some(core::cmp::Ordering::Greater)
            } else {
                proof {
                    assert(na@ =~= nb@);
                    assert(ta =~= tb);
                    crate::text::lemma_chars_lt_irreflexive(ta);
                }
                Some(core::cmp::Ordering::Equal)
            }
        }
    }
}

// Executable decision procedure for the ability order, used to keep
// collections sorted.
pub(crate) fn ability_precedes(a: &Ability, b: &Ability) -> (r: bool)
    ensures
        r == ability_lt(a@, b@),
{
    match a.partial_cmp(b) {
        Some(core::cmp::Ordering::Less) => true,
        _ => false,
    }
}

} // verus!
