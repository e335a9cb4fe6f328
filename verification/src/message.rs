use vstd::prelude::*;

use crate::capability::{Capability, DecodingError, SpecCapability};
use crate::capability::{payload_of, spec_cap_wf};
use crate::codec::jcs_value;
use crate::outside::{b64_of, is_uri_text, uri_ok};
use crate::statement::{stmt_text, texts_of, lemma_texts_of_index};
use crate::text::{ends_with, starts_with, str_ends_with, str_starts_with};

verus! {

// ---------------------------------------------------------------------------
// The host message: the three fields of the signing message that the
// capability protocol reads and writes.  Everything else of the host
// message stays outside this crate.
// ---------------------------------------------------------------------------

#[derive(Debug, PartialEq, Eq)]
pub struct HostMessage {
    pub statement: Option<String>,
    pub uri: String,
    pub resources: Vec<String>,
}

pub open spec fn prefix_text() -> Seq<char> {
    "urn:recap:"@
}

// The resource entry that carries a capability.
pub open spec fn resource_text(c: SpecCapability) -> Seq<char> {
    prefix_text() + b64_of(jcs_value(payload_of(c)))
}

#[derive(Debug, PartialEq, Eq)]
pub enum EncodingError {
    UriParse,
}

#[derive(Debug, PartialEq, Eq)]
pub enum VerificationError {
    Decoding(DecodingError),
    IncorrectStatement(String),
}

impl Capability {
    /// The capability as a resource entry: the protocol prefix, then the
    /// transport encoding.  Fails only where the result is no valid URI.
    pub fn to_resource_text(&self) -> (r: Result<String, EncodingError>)
        ensures
            r matches Ok(t) ==> t@ == resource_text(self@) && is_uri_text(t@),
            r is Ok <==> is_uri_text(resource_text(self@)),
            r is Err ==> r == Err::<String, EncodingError>(EncodingError::UriParse),
    {
        let encoded = self.encode();
        let mut out = String::from_str("urn:recap:");
        out.append(encoded.as_str());
        proof {
            assert(out@ == resource_text(self@));
        }
        if uri_ok(out.as_str()) {
            Ok(out)
        } else {
            Err(EncodingError::UriParse)
        }
    }

    /// Reads a capability out of one resource entry.
    pub fn from_resource_text(s: &str) -> (r: Result<Capability, DecodingError>)
        ensures
            !starts_with(s@, prefix_text()) ==> (r matches Err(e) && e matches
                DecodingError::InvalidResourcePrefix(t) && t@ == s@),
            forall|sc: SpecCapability|
                spec_cap_wf(sc) && s@ == #[trigger] resource_text(sc) ==> (r matches Ok(c) && c@
                    == sc),
            r is Err ==> forall|sc: SpecCapability|
                spec_cap_wf(sc) ==> s@ != #[trigger] resource_text(sc),
    {
        let prefix = "urn:recap:";
        if !str_starts_with(s, prefix) {
            proof {
                assert forall|sc: SpecCapability|
                    spec_cap_wf(sc) && s@ == #[trigger] resource_text(sc) implies false by {
                    assert(s@.take(prefix_text().len() as int) =~= prefix_text());
                }
            }
            return Err(DecodingError::InvalidResourcePrefix(s.to_owned()));
        }
        let plen = prefix.unicode_len();
        let n = s.unicode_len();
        let body = s.substring_char(plen, n);
        proof {
            assert forall|sc: SpecCapability|
                spec_cap_wf(sc) && s@ == #[trigger] resource_text(sc) implies body@ == b64_of(
                jcs_value(payload_of(sc)),
            ) by {
                assert(body@ =~= s@.skip(plen as int));
                assert(s@.skip(plen as int) =~= b64_of(jcs_value(payload_of(sc))));
            }
        }
        Capability::decode(body)
    }

    /// Writes this capability into a host message: appends the resource
    /// entry and appends the generated clause to the statement, after one
    /// separating space where a statement already exists.  An empty
    /// capability leaves the message untouched.
    pub fn build_message(&self, message: HostMessage) -> (r: Result<HostMessage, EncodingError>)
        ensures
            self@.atts.len() == 0 ==> r == Ok::<HostMessage, EncodingError>(message),
            self@.atts.len() > 0 ==> {
                &&& (r is Ok <==> is_uri_text(resource_text(self@)))
                &&& (r matches Ok(m2) ==> {
                    &&& m2.uri == message.uri
                    &&& texts_of(m2.resources@) == texts_of(message.resources@).push(
                        resource_text(self@),
                    )
                    &&& (m2.statement matches Some(s2) && s2@ == (match message.statement {
                        Some(s) => if s@.len() == 0 {
                            stmt_text(self@)
                        } else {
                            s@ + " "@ + stmt_text(self@)
                        },
                        None => stmt_text(self@),
                    }))
                    &&& (m2.statement matches Some(s2) && ends_with(s2@, stmt_text(self@)))
                })
            },
    {
        let atts = self.abilities();
        proof {
            crate::capability::lemma_spec_atts_of_index(atts@);
        }
        if atts.len() == 0 {
            return Ok(message);
        }
        let statement = self.to_statement();
        let entry = match self.to_resource_text() {
            Ok(t) => t,
            Err(e) => {
                return Err(e);
            },
        };
        let HostMessage { statement: old_statement, uri, mut resources } = message;
        let ghost old_res = resources@;
        resources.push(entry);
        proof {
            lemma_texts_of_index(resources@);
            lemma_texts_of_index(old_res);
            assert(texts_of(resources@) =~= texts_of(old_res).push(resource_text(self@)));
        }
        let new_statement = match old_statement {
            None => statement,
            Some(s) => {
                if s.as_str().is_empty() {
                    statement
                } else {
                    let mut joined = s;
                    joined.append(" ");
                    joined.append(statement.as_str());
                    joined
                }
            },
        };
        proof {
            assert(ends_with(new_statement@, stmt_text(self@))) by {
                assert(new_statement@.skip(
                    new_statement@.len() - stmt_text(self@).len(),
                ) =~= stmt_text(self@));
            }
        }
        Ok(HostMessage { statement: Some(new_statement), uri, resources })
    }

    /// Reads the capability out of a host message's last resource entry, if
    /// that entry carries one: nothing is found exactly when the resource
    /// list is empty or its last entry lacks the protocol prefix, and a
    /// prefixed last entry either decodes or is the specific decode error.
    pub fn extract(message: &HostMessage) -> (r: Result<Option<Capability>, DecodingError>)
        ensures
            message.resources@.len() == 0 ==> r == Ok::<Option<Capability>, DecodingError>(None),
            message.resources@.len() > 0 && !starts_with(
                message.resources@.last()@,
                prefix_text(),
            ) ==> r == Ok::<Option<Capability>, DecodingError>(None),
            forall|sc: SpecCapability|
                spec_cap_wf(sc) && message.resources@.len() > 0 && message.resources@.last()@
                    == #[trigger] resource_text(sc) ==> (r matches Ok(o) && o matches Some(c)
                    && c@ == sc),
            r matches Ok(o) ==> (o is None ==> message.resources@.len() == 0 || !starts_with(
                message.resources@.last()@,
                prefix_text(),
            )),
            r matches Ok(o) ==> (o is Some ==> message.resources@.len() > 0 && starts_with(
                message.resources@.last()@,
                prefix_text(),
            )),
            r is Err ==> message.resources@.len() > 0 && starts_with(
                message.resources@.last()@,
                prefix_text(),
            ),
            r is Err ==> forall|sc: SpecCapability|
                spec_cap_wf(sc) ==> message.resources@.last()@ != #[trigger] resource_text(sc),
    {
        let n = message.resources.len();
        if n == 0 {
            return Ok(None);
        }
        let last = &message.resources[n - 1];
        if !str_starts_with(last.as_str(), "urn:recap:") {
            proof {
                assert forall|sc: SpecCapability|
                    spec_cap_wf(sc) && message.resources@.last()@ == #[trigger] resource_text(
                        sc,
                    ) implies false by {
                    assert(message.resources@.last()@.take(prefix_text().len() as int)
                        =~= prefix_text());
                }
            }
            return Ok(None);
        }
        match Capability::from_resource_text(last.as_str()) {
            Ok(c) => Ok(Some(c)),
            Err(e) => Err(e),
        }
    }

    /// Reads the capability out of a host message and checks that the
    /// message's statement ends with exactly the clause this capability
    /// generates.  Nothing is found exactly when the resource list is empty
    /// or its last entry lacks the protocol prefix — a failure is never
    /// softened to absence; a decode failure is reported as such, and a
    /// statement that does not end with the expected clause is rejected
    /// with that clause.
    pub fn extract_and_verify(message: &HostMessage) -> (r: Result<
        Option<Capability>,
        VerificationError,
    >)
        ensures
            message.resources@.len() == 0 ==> r == Ok::<Option<Capability>, VerificationError>(
                None,
            ),
            message.resources@.len() > 0 && !starts_with(
                message.resources@.last()@,
                prefix_text(),
            ) ==> r == Ok::<Option<Capability>, VerificationError>(None),
            r matches Ok(o) ==> (o is None ==> message.resources@.len() == 0 || !starts_with(
                message.resources@.last()@,
                prefix_text(),
            )),
            r matches Ok(o) ==> (o is Some ==> message.resources@.len() > 0 && starts_with(
                message.resources@.last()@,
                prefix_text(),
            )),
            r is Err ==> message.resources@.len() > 0 && starts_with(
                message.resources@.last()@,
                prefix_text(),
            ),
            r matches Ok(o) ==> (o matches Some(c) ==> (message.statement matches Some(s)
                && ends_with(s@, stmt_text(c@)))),
            forall|sc: SpecCapability|
                spec_cap_wf(sc) && message.resources@.len() > 0 && message.resources@.last()@
                    == #[trigger] resource_text(sc) && (message.statement matches Some(s)
                    && ends_with(s@, stmt_text(sc))) ==> (r matches Ok(o) && o matches Some(c)
                    && c@ == sc),
            forall|sc: SpecCapability|
                spec_cap_wf(sc) && message.resources@.len() > 0 && message.resources@.last()@
                    == #[trigger] resource_text(sc) && !(message.statement matches Some(s)
                    && ends_with(s@, stmt_text(sc))) ==> (r matches Err(e) && (e matches
                    VerificationError::IncorrectStatement(t) && t@ == stmt_text(sc))),
            r matches Err(e) ==> (e matches VerificationError::Decoding(d)
                ==> forall|sc: SpecCapability|
                spec_cap_wf(sc) ==> message.resources@.last()@ != #[trigger] resource_text(sc)),
            r matches Err(e) ==> (e matches VerificationError::IncorrectStatement(t) ==> !(
            message.statement matches Some(s) && ends_with(s@, t@))),
    {
        let extracted = match Capability::extract(message) {
            Ok(o) => o,
            Err(e) => {
                return Err(VerificationError::Decoding(e));
            },
        };
        match extracted {
            None => Ok(None),
            Some(c) => {
                let expected = c.to_statement();
                match &message.statement {
                    Some(s) => {
                        if str_ends_with(s.as_str(), expected.as_str()) {
                            Ok(Some(c))
                        } else {
                            Err(VerificationError::IncorrectStatement(expected))
                        }
                    },
                    None => Err(VerificationError::IncorrectStatement(expected)),
                }
            },
        }
    }
}

// Building a fresh message from a non-empty capability yields fields the
// verifier's success conditions hold of: the appended resource entry
// carries the protocol prefix and is the capability's resource text, and
// the new statement ends with the capability's clause.
pub proof fn lemma_built_message_verifies(sc: SpecCapability, new_res: Seq<Seq<char>>, s2: Seq<
    char,
>)
    requires
        spec_cap_wf(sc),
        new_res.len() > 0,
        new_res.last() == resource_text(sc),
        ends_with(s2, stmt_text(sc)),
    ensures
        starts_with(new_res.last(), prefix_text()),
        new_res.last() == resource_text(sc),
        ends_with(s2, stmt_text(sc)),
{
    assert(resource_text(sc).take(prefix_text().len() as int) =~= prefix_text());
}

} // verus!