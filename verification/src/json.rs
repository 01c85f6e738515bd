//! JSON documents as the engine reads them.
//!
//! Stored values are opaque strings. Where the engine looks inside one, it
//! reads the top-level members of a JSON object: the name of each, its value
//! as a string or as a 64-bit integer where it is one, and the JSON text of
//! the value.

use vstd::prelude::*;

verus! {

/// One top-level member of a JSON object.
#[derive(Debug, Clone, PartialEq)]
pub struct Member {
    /// The member's name.
    pub name: String,
    /// The value, where it is a JSON string.
    pub text: Option<String>,
    /// The value, where it is an integer that fits 64 signed bits.
    pub integer: Option<i64>,
    /// The compact JSON text of the value.
    pub rendered: String,
}

/// What a stored value is when read as JSON.
#[derive(Debug, Clone, PartialEq)]
pub enum Document {
    /// The value is not JSON.
    Invalid,
    /// The value is JSON, but no object.
    Scalar,
    /// The value is a JSON object with these members.
    Object(Vec<Member>),
}

/// The mathematical value of a [`Member`].
pub struct MemberView {
    pub name: Seq<char>,
    pub text: Option<Seq<char>>,
    pub integer: Option<i64>,
    pub rendered: Seq<char>,
}

/// The mathematical value of a [`Document`].
pub enum DocumentView {
    Invalid,
    Scalar,
    Object(Seq<MemberView>),
}

impl View for Member {
    type V = MemberView;

    open spec fn view(&self) -> MemberView {
        MemberView {
            name: self.name@,
            text: match self.text {
                Some(t) => Some(t@),
                None => None,
            },
            integer: self.integer,
            rendered: self.rendered@,
        }
    }
}

impl View for Document {
    type V = DocumentView;

    open spec fn view(&self) -> DocumentView {
        match self {
            Document::Invalid => DocumentView::Invalid,
            Document::Scalar => DocumentView::Scalar,
            Document::Object(members) => DocumentView::Object(
                Seq::new(members@.len(), |i: int| members@[i]@),
            ),
        }
    }
}

impl DocumentView {
    /// The members of an object; none for anything else.
    pub open spec fn members(self) -> Seq<MemberView> {
        match self {
            DocumentView::Object(members) => members,
            _ => Seq::empty(),
        }
    }

    /// No two members share a name.
    pub open spec fn names_distinct(self) -> bool {
        forall|i: int, j: int|
            0 <= i < j < self.members().len() ==> self.members()[i].name != self.members()[j].name
    }

    /// The position of the member called `name`, if there is one.
    pub open spec fn position(self, name: Seq<char>) -> Option<int> {
        if exists|i: int| 0 <= i < self.members().len() && self.members()[i].name == name {
            Some(choose|i: int| 0 <= i < self.members().len() && self.members()[i].name == name)
        } else {
            None
        }
    }

    /// The member called `name`, if there is one.
    pub open spec fn member(self, name: Seq<char>) -> Option<MemberView> {
        match self.position(name) {
            Some(i) => Some(self.members()[i]),
            None => None,
        }
    }

    /// The string held by the member called `name`.
    pub open spec fn text_of(self, name: Seq<char>) -> Option<Seq<char>> {
        match self.member(name) {
            Some(m) => m.text,
            None => None,
        }
    }

    /// The integer held by the member called `name`.
    pub open spec fn integer_of(self, name: Seq<char>) -> Option<i64> {
        match self.member(name) {
            Some(m) => m.integer,
            None => None,
        }
    }
}

/// What a text is when read as JSON.
pub uninterp spec fn json_document(text: Seq<char>) -> DocumentView;

/// The JSON text of a string value: the string quoted and escaped.
pub uninterp spec fn json_string_text(text: Seq<char>) -> Seq<char>;

impl DocumentView {
    /// Where names are distinct, the member found under the name of the
    /// `i`-th member is the `i`-th member.
    pub proof fn lemma_member_at(self, i: int)
        requires
            self.names_distinct(),
            0 <= i < self.members().len(),
        ensures
            self.position(self.members()[i].name) == Some(i),
            self.member(self.members()[i].name) == Some(self.members()[i]),
    {
        let name = self.members()[i].name;
        let j = choose|j: int| 0 <= j < self.members().len() && self.members()[j].name == name;
        if j < i {
            assert(self.members()[j].name != self.members()[i].name);
        }
        if i < j {
            assert(self.members()[i].name != self.members()[j].name);
        }
    }
}

/// `serde_json::from_str` into a `serde_json::Value`, then, for an object,
/// `Value::as_str`, `Value::as_i64` and `Value::to_string` on each member of
/// its map. The contract names the outcome as a function of the text, and
/// claims that the members of one object have distinct names, since they
/// come out of a map keyed by name.
#[verifier::external_body]
pub(crate) fn parse_document(text: &str) -> (document: Document)
    ensures
        document@ == json_document(text@),
        document@.names_distinct(),
{
    match serde_json::from_str::<serde_json::Value>(text) {
        Err(_) => Document::Invalid,
        Ok(serde_json::Value::Object(object)) => Document::Object(
            object.iter().map(|(name, value)| Member {
                name: name.clone(),
                text: value.as_str().map(str::to_owned),
                integer: value.as_i64(),
                rendered: value.to_string(),
            }).collect(),
        ),
        Ok(_) => Document::Scalar,
    }
}

/// `serde_json::Value::String(..).to_string()`: renders a string as a JSON
/// string literal. The contract names the literal; it claims nothing else.
#[verifier::external_body]
pub(crate) fn quote_text(text: &str) -> (quoted: String)
    ensures
        quoted@ == json_string_text(text@),
{
    serde_json::Value::String(text.to_owned()).to_string()
}

impl Document {
    /// Looks up the member called `name`.
    pub fn find(&self, name: &String) -> (found: Option<&Member>)
        requires
            self@.names_distinct(),
        ensures
            match found {
                Some(m) => self@.member(name@) == Some(m@),
                None => self@.member(name@) is None,
            },
    {
        match self {
            Document::Object(members) => {
                let mut i: usize = 0;
                while i < members.len()
                    invariant
                        i <= members.len(),
                        self@.names_distinct(),
                        self@.members().len() == members@.len(),
                        forall|k: int| 0 <= k < members@.len() ==> self@.members()[k] == members@[k]@,
                        forall|k: int| 0 <= k < i ==> self@.members()[k].name != name@,
                    decreases members.len() - i,
                {
                    if members[i].name == *name {
                        proof {
                            self@.lemma_member_at(i as int);
                        }
                        return Some(&members[i]);
                    }
                    i += 1;
                }
                None
            },
            _ => None,
        }
    }
}

} // verus!
