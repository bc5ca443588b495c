//! The text of a log event.

use crate::text::{chars_of, same};
use vstd::prelude::*;
use vstd::string::StringExecFns;

verus! {

/// Collects the fields of a log event.
#[derive(Debug, Default)]
pub struct MessageVisitor {
    pub message: String,
    pub fields: String,
}

/// The fields of an event with one more of them.
pub open spec fn joined_field(fields: Seq<char>, name: Seq<char>, value: Seq<char>) -> Seq<char> {
    let field = name + "="@ + value;
    if fields.len() == 0 {
        field
    } else {
        fields.push(' ') + field
    }
}

impl MessageVisitor {
    /// A visitor that was told of no field yet.
    pub fn new() -> (visitor: Self)
        ensures
            visitor.message@ == Seq::<char>::empty(),
            visitor.fields@ == Seq::<char>::empty(),
    {
        MessageVisitor { message: String::new(), fields: String::new() }
    }

    /// Takes note of a field: the one named `message` is the message, and any other one follows
    /// the fields before it.
    pub fn record(&mut self, name: &str, value: &str)
        ensures
            (final(self).message@, final(self).fields@) == if name@ == "message"@ {
                (value@, old(self).fields@)
            } else {
                (old(self).message@, joined_field(old(self).fields@, name@, value@))
            },
    {
        if same(&chars_of(name), &chars_of("message")) {
            self.message = String::from_str(value);
        } else {
            let empty: bool = chars_of(self.fields.as_str()).len() == 0;
            let field = String::from_str(name).concat("=").concat(value);
            if empty {
                self.fields = field;
            } else {
                let mut fields = self.fields.clone();
                fields.push(' ');
                fields.append(field.as_str());
                self.fields = fields;
            }
        }
    }

    /// The message, followed by the other fields where there are any.
    pub fn formatted(&self) -> (text: String)
        ensures
            text@ == if self.fields@.len() == 0 {
                self.message@
            } else {
                self.message@ + "  "@ + self.fields@
            },
    {
        if chars_of(self.fields.as_str()).len() == 0 {
            self.message.clone()
        } else {
            self.message.clone().concat("  ").concat(self.fields.as_str())
        }
    }
}

/// Every field that was noted stays, in its order, with a space before the next one, and each is
/// its name and its value.
pub proof fn law_fields_follow_one_another(
    fields: Seq<char>,
    name: Seq<char>,
    value: Seq<char>,
)
    ensures
        joined_field(seq![], name, value) == name + "="@ + value,
        fields.len() > 0 ==> joined_field(fields, name, value) == fields + seq![' '] + joined_field(
            seq![],
            name,
            value,
        ),
{
    assert(fields.push(' ') =~= fields + seq![' ']);
}

} // verus!
