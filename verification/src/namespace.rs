use vstd::prelude::*;

use crate::error::Error;

verus! {

pub open spec fn is_ascii_alnum(c: char) -> bool {
    (48 <= (c as u32) && (c as u32) <= 57) || (65 <= (c as u32) && (c as u32) <= 90) || (97 <= (
    c as u32) && (c as u32) <= 122)
}

// The namespace grammar, read left to right: a hyphen may only follow an
// alphanumeric, and the text must end on an alphanumeric.  The first fault
// decides the error: a misplaced hyphen or a premature end is a hyphen
// fault, any other character is a character fault.
pub open spec fn ns_scan(s: Seq<char>, i: int, prev_alnum: bool) -> Option<Error>
    decreases s.len() - i,
{
    if i < 0 || i >= s.len() {
        if prev_alnum {
            None
        } else {
            Some(Error::InvalidNamespaceHyphens)
        }
    } else if is_ascii_alnum(s[i]) {
        ns_scan(s, i + 1, true)
    } else if s[i] == '-' && prev_alnum {
        ns_scan(s, i + 1, false)
    } else if s[i] == '-' {
        Some(Error::InvalidNamespaceHyphens)
    } else {
        Some(Error::InvalidNamespaceChars)
    }
}

pub open spec fn valid_namespace(s: Seq<char>) -> bool {
    ns_scan(s, 0, false) is None
}

/// The namespace a capability is granted under.
#[derive(Debug, PartialEq, Eq, PartialOrd, Ord)]
pub struct Namespace {
    text: String,
}

impl View for Namespace {
    type V = Seq<char>;

    closed spec fn view(&self) -> Seq<char> {
        self.text@
    }
}

impl Namespace {
    #[verifier::type_invariant]
    pub open spec fn inv(self) -> bool {
        valid_namespace(self@)
    }

    /// Accepts exactly the texts of the namespace grammar, faulting on the
    /// first offending position.
    pub fn parse(s: &str) -> (r: Result<Namespace, Error>)
        ensures
            r matches Ok(ns) ==> ns@ == s@ && valid_namespace(s@),
            r matches Err(e) ==> ns_scan(s@, 0, false) == Some(e),
            r is Ok <==> valid_namespace(s@),
    {
        let n = s.unicode_len();
        let mut i: usize = 0;
        let mut prev_alnum = false;
        while i < n
            invariant
                i <= n,
                n == s@.len(),
                ns_scan(s@, 0, false) == ns_scan(s@, i as int, prev_alnum),
            decreases n - i,
        {
            let c = s.get_char(i);
            let u = c as u32;
            if (48 <= u && u <= 57) || (65 <= u && u <= 90) || (97 <= u && u <= 122) {
                prev_alnum = true;
            } else if c == '-' && prev_alnum {
                prev_alnum = false;
            } else if c == '-' {
                return Err(Error::InvalidNamespaceHyphens);
            } else {
                return Err(Error::InvalidNamespaceChars);
            }
            i = i + 1;
        }
        if prev_alnum {
            Ok(Namespace { text: s.to_owned() })
        } else {
            Err(Error::InvalidNamespaceHyphens)
        }
    }

    pub fn as_str(&self) -> (r: &str)
        ensures
            r@ == self@,
    {
        self.text.as_str()
    }

    /// Surrenders the validated text.
    pub fn into_string(self) -> (r: String)
        ensures
            r@ == self@,
    {
        self.text
    }
}

} // verus!
