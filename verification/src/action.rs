use vstd::prelude::*;

use crate::ability::{find_char, scan_part, valid_ability_part};

verus! {

// An action token: the same `namespace/name` grammar as an ability, split at
// the first separator, each half non-empty over alphanumerics and the
// allowed symbols.
#[derive(Debug, PartialEq, Eq, Hash)]
pub struct ActionNamespace {
    text: String,
}

#[derive(Debug, PartialEq, Eq, Hash)]
pub struct ActionName {
    text: String,
}

#[derive(Debug, PartialEq, Eq, Hash)]
pub struct Action {
    namespace: ActionNamespace,
    name: ActionName,
}

impl View for ActionNamespace {
    type V = Seq<char>;

    closed spec fn view(&self) -> Seq<char> {
        self.text@
    }
}

impl View for ActionName {
    type V = Seq<char>;

    closed spec fn view(&self) -> Seq<char> {
        self.text@
    }
}

impl View for Action {
    type V = (Seq<char>, Seq<char>);

    closed spec fn view(&self) -> (Seq<char>, Seq<char>) {
        (self.namespace@, self.name@)
    }
}

impl ActionNamespace {
    #[verifier::type_invariant]
    pub open spec fn inv(self) -> bool {
        valid_ability_part(self@)
    }
}

impl ActionName {
    #[verifier::type_invariant]
    pub open spec fn inv(self) -> bool {
        valid_ability_part(self@)
    }
}

#[derive(Debug, PartialEq, Eq)]
pub enum ActionStringParseError {
    InvalidCharacter(String),
}

#[derive(Debug, PartialEq, Eq)]
pub enum ActionParseError {
    MissingSeparator,
    Namespace(ActionStringParseError),
    Name(ActionStringParseError),
}

impl ActionNamespace {
    pub fn parse(s: &str) -> (r: Result<ActionNamespace, ActionStringParseError>)
        ensures
            r matches Ok(a) ==> valid_ability_part(s@) && a@ == s@,
            r matches Err(e) ==> !valid_ability_part(s@) && (e matches
                ActionStringParseError::InvalidCharacter(t) && t@ == s@),
    {
        if scan_part(s) {
            Ok(ActionNamespace { text: s.to_owned() })
        } else {
            Err(ActionStringParseError::InvalidCharacter(s.to_owned()))
        }
    }

    pub fn as_str(&self) -> (r: &str)
        ensures
            r@ == self@,
    {
        self.text.as_str()
    }
}

impl ActionName {
    pub fn parse(s: &str) -> (r: Result<ActionName, ActionStringParseError>)
        ensures
            r matches Ok(a) ==> valid_ability_part(s@) && a@ == s@,
            r matches Err(e) ==> !valid_ability_part(s@) && (e matches
                ActionStringParseError::InvalidCharacter(t) && t@ == s@),
    {
        if scan_part(s) {
            Ok(ActionName { text: s.to_owned() })
        } else {
            Err(ActionStringParseError::InvalidCharacter(s.to_owned()))
        }
    }

    pub fn as_str(&self) -> (r: &str)
        ensures
            r@ == self@,
    {
        self.text.as_str()
    }
}

impl Action {
    /// Parses "namespace/name", splitting at the first '/'.
    pub fn parse(s: &str) -> (r: Result<Action, ActionParseError>)
        ensures
            find_char(s@, '/') is None ==> r == Err::<Action, ActionParseError>(
                ActionParseError::MissingSeparator,
            ),
            find_char(s@, '/') matches Some(i) ==> {
                let ns = s@.take(i);
                let name = s@.skip(i + 1);
                &&& (r matches Ok(a) ==> valid_ability_part(ns) && valid_ability_part(name)
                    && a@ == (ns, name))
                &&& (r is Err ==> !(valid_ability_part(ns) && valid_ability_part(name)))
                &&& (!valid_ability_part(ns) ==> (r matches Err(e) && (e matches
                    ActionParseError::Namespace(ActionStringParseError::InvalidCharacter(t))
                    && t@ == ns)))
                &&& (valid_ability_part(ns) && !valid_ability_part(name) ==> (r matches Err(e)
                    && (e matches ActionParseError::Name(
                    ActionStringParseError::InvalidCharacter(t),
                ) && t@ == name)))
            },
    {
        let n = s.unicode_len();
        match crate::ability::find_slash(s) {
            None => Err(ActionParseError::MissingSeparator),
            Some(idx) => {
                let ns_str = s.substring_char(0, idx);
                let name_str = s.substring_char(idx + 1, n);
                proof {
                    assert(ns_str@ =~= s@.take(idx as int));
                    assert(name_str@ =~= s@.skip(idx + 1));
                }
                let namespace = match ActionNamespace::parse(ns_str) {
                    Ok(ns) => ns,
                    Err(e) => {
                        return Err(ActionParseError::Namespace(e));
                    },
                };
                let name = match ActionName::parse(name_str) {
                    Ok(nm) => nm,
                    Err(e) => {
                        return Err(ActionParseError::Name(e));
                    },
                };
                Ok(Action { namespace, name })
            },
        }
    }

    pub fn namespace(&self) -> (r: &ActionNamespace)
        ensures
            r@ == self@.0,
    {
        &self.namespace
    }

    pub fn name(&self) -> (r: &ActionName)
        ensures
            r@ == self@.1,
    {
        &self.name
    }
}

} // verus!
