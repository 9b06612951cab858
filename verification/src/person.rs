use vstd::prelude::*;

verus! {

/// Mathematical model of a participant record: each string field by its
/// character sequence.
#[verifier::ext_equal]
pub ghost struct PersonV {
    pub name: Seq<char>,
    pub email_address: Option<Seq<char>>,
    pub group_number: Option<u16>,
    pub assigned_person_name: Option<Seq<char>>,
}

/// A participant: a display name, an optional e-mail address, an optional
/// group identifier, and the recipient name that an accepted gift circle
/// assigns.
#[derive(Debug)]
pub struct Person {
    pub name: String,
    pub email_address: Option<String>,
    pub group_number: Option<u16>,
    pub assigned_person_name: Option<String>,
}

/// The character-sequence view of an optional string.
pub open spec fn opt_str_view(o: Option<String>) -> Option<Seq<char>> {
    match o {
        Some(s) => Some(s@),
        None => None,
    }
}

impl View for Person {
    type V = PersonV;

    open spec fn view(&self) -> PersonV {
        PersonV {
            name: self.name@,
            email_address: opt_str_view(self.email_address),
            group_number: self.group_number,
            assigned_person_name: opt_str_view(self.assigned_person_name),
        }
    }
}

impl DeepView for Person {
    type V = PersonV;

    open spec fn deep_view(&self) -> PersonV {
        self@
    }
}

/// Equality of optional strings, by their character sequences.
fn opt_str_eq(a: &Option<String>, b: &Option<String>) -> (r: bool)
    ensures
        r == (opt_str_view(*a) == opt_str_view(*b)),
{
    match a {
        Some(x) => match b {
            Some(y) => *x == *y,
            None => false,
        },
        None => b.is_none(),
    }
}

impl Clone for Person {
    fn clone(&self) -> (res: Person)
        ensures
            res == *self,
    {
        Person {
            name: self.name.clone(),
            email_address: match &self.email_address {
                Some(e) => Some(e.clone()),
                None => None,
            },
            group_number: self.group_number,
            assigned_person_name: match &self.assigned_person_name {
                Some(n) => Some(n.clone()),
                None => None,
            },
        }
    }
}

impl PartialEq for Person {
    fn eq(&self, other: &Person) -> (r: bool) {
        let r = self.name == other.name && self.group_number == other.group_number
            && opt_str_eq(&self.email_address, &other.email_address)
            && opt_str_eq(&self.assigned_person_name, &other.assigned_person_name);
        proof {
            if r {
                assert(self@ =~= other@);
            }
        }
        r
    }
}

impl vstd::std_specs::cmp::PartialEqSpecImpl for Person {
    open spec fn obeys_eq_spec() -> bool {
        true
    }

    open spec fn eq_spec(&self, other: &Person) -> bool {
        self@ == other@
    }
}

impl Person {
    /// A participant with the given name and group, no e-mail address, and
    /// no recipient assigned yet.
    pub fn new(name: &str, group_number: u16) -> (p: Person)
        ensures
            p@.name == name@,
            p@.email_address is None,
            p@.group_number == Some(group_number),
            p@.assigned_person_name is None,
    {
        Person {
            name: name.to_string(),
            email_address: None,
            group_number: Some(group_number),
            assigned_person_name: None,
        }
    }

    /// A participant with the given name, no group, no e-mail address, and
    /// no recipient assigned yet.
    pub fn new_no_group(name: &str) -> (p: Person)
        ensures
            p@.name == name@,
            p@.email_address is None,
            p@.group_number is None,
            p@.assigned_person_name is None,
    {
        Person {
            name: name.to_string(),
            email_address: None,
            group_number: None,
            assigned_person_name: None,
        }
    }
}

} // verus!
