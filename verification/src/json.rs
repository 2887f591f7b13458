//! JSON objects: their compact text, and the members that are read from text.
use crate::decimal;
use vstd::prelude::*;

verus! {

#[verifier::external_type_specification]
#[verifier::external_body]
pub struct ExJsonValue(serde_json::Value);

#[verifier::external_type_specification]
#[verifier::external_body]
pub struct ExJsonError(serde_json::Error);

pub open spec fn hex_digit(d: int) -> char {
    if d < 10 {
        ('0' as int + d) as char
    } else {
        ('a' as int + d - 10) as char
    }
}

/// A character as it stands between quotes.
pub open spec fn escape(c: char) -> Seq<char> {
    if c == '"' || c == '\\' {
        seq!['\\', c]
    } else if c == '\n' {
        seq!['\\', 'n']
    } else if c == '\r' {
        seq!['\\', 'r']
    } else if c == '\t' {
        seq!['\\', 't']
    } else if c as int == 8 {
        seq!['\\', 'b']
    } else if c as int == 12 {
        seq!['\\', 'f']
    } else if ' ' > c {
        seq!['\\', 'u', '0', '0', hex_digit(c as int / 16), hex_digit(c as int % 16)]
    } else {
        seq![c]
    }
}

pub open spec fn escaped(text: Seq<char>) -> Seq<char>
    decreases text.len(),
{
    if text.len() == 0 {
        Seq::empty()
    } else {
        escaped(text.drop_last()) + escape(text.last())
    }
}

pub open spec fn quoted(text: Seq<char>) -> Seq<char> {
    seq!['"'] + escaped(text) + seq!['"']
}

/// A member that is text.
pub open spec fn text_field(name: Seq<char>, text: Seq<char>) -> Seq<char> {
    quoted(name) + seq![':'] + quoted(text)
}

/// A member that is a number.
pub open spec fn number_field(name: Seq<char>, number: u32) -> Seq<char> {
    quoted(name) + seq![':'] + decimal::digits(number as nat)
}

pub open spec fn joined(fields: Seq<Seq<char>>) -> Seq<char>
    decreases fields.len(),
{
    if fields.len() == 0 {
        Seq::empty()
    } else if fields.len() == 1 {
        fields[0]
    } else {
        joined(fields.drop_last()) + seq![','] + fields.last()
    }
}

/// The compact text of an object with the given members.
pub open spec fn object(fields: Seq<Seq<char>>) -> Seq<char> {
    seq!['{'] + joined(fields) + seq!['}']
}

/// `a` differs from `b` first in a smaller character.
pub open spec fn before(a: Seq<char>, b: Seq<char>) -> bool {
    exists|i: int|
        0 <= i < a.len() && i < b.len() && #[trigger] a.take(i) == b.take(i) && a[i] < b[i]
}

/// The members of an object: first those that are text, then those that are numbers.
pub struct Members {
    pub texts: Vec<(String, String)>,
    pub numbers: Vec<(String, u32)>,
}

/// The text members of `list` by name.
pub open spec fn text_map(list: Seq<(String, String)>) -> Map<Seq<char>, Seq<char>>
    decreases list.len(),
{
    if list.len() == 0 {
        Map::empty()
    } else {
        text_map(list.drop_last()).insert(list.last().0@, list.last().1@)
    }
}

impl Members {
    /// The names of the members.
    pub open spec fn names(self) -> Seq<Seq<char>> {
        self.texts@.map_values(|m: (String, String)| m.0@) + self.numbers@.map_values(
            |m: (String, u32)| m.0@,
        )
    }

    /// The names are in order, and so no two alike.
    pub open spec fn ordered(self) -> bool {
        forall|i: int, j: int|
            0 <= i < j < self.names().len() ==> before(
                #[trigger] self.names()[i],
                #[trigger] self.names()[j],
            )
    }

    /// The members as they stand in an object.
    pub open spec fn fields(self) -> Seq<Seq<char>> {
        self.texts@.map_values(|m: (String, String)| text_field(m.0@, m.1@))
            + self.numbers@.map_values(|m: (String, u32)| number_field(m.0@, m.1))
    }
}

/// What a JSON parser reads from text, where it accepts it: the text members of the
/// object by name. A value that is no object has none.
pub uninterp spec fn json_read(text: Seq<char>) -> Option<Map<Seq<char>, Seq<char>>>;

/// The members of a JSON object that are text.
pub uninterp spec fn text_members(value: serde_json::Value) -> Map<Seq<char>, Seq<char>>;

/// `serde_json::Value::to_string` on the object with these members: its compact
/// text, in which the members are sorted by name, as they are here. Parsing the
/// text gives the text members back.
#[verifier::external_body]
pub(crate) fn object_text(members: &Members) -> (r: String)
    requires
        members.ordered(),
    ensures
        r@ == object(members.fields()),
        json_read(r@) == Some(text_map(members.texts@)),
{
    let texts = members.texts.iter().map(|m| (m.0.clone(), serde_json::Value::from(m.1.clone())));
    let numbers = members.numbers.iter().map(|m| (m.0.clone(), serde_json::Value::from(m.1)));
    serde_json::Value::Object(texts.chain(numbers).collect()).to_string()
}

/// `serde_json::from_str`: the value that `text` stands for, or an error where it
/// is not JSON. Which error comes is not stated.
#[verifier::external_body]
pub(crate) fn parse(text: &str) -> (r: Result<serde_json::Value, serde_json::Error>)
    ensures
        r is Ok <==> json_read(text@) is Some,
        r matches Ok(value) ==> json_read(text@) == Some(text_members(value)),
{
    serde_json::from_str(text)
}

/// `serde_json::Value::index` with a name and `as_str`: the text member of that
/// name, if there is one.
#[verifier::external_body]
pub(crate) fn text_member(value: &serde_json::Value, name: &str) -> (r: Option<String>)
    ensures
        r is Some <==> text_members(*value).contains_key(name@),
        r matches Some(text) ==> text@ == text_members(*value)[name@],
{
    value[name].as_str().map(|text| text.to_owned())
}

/// Text without quotes, backslashes and control characters stands between quotes as
/// it is.
pub proof fn lemma_plain(text: Seq<char>)
    requires
        forall|i: int|
            0 <= i < text.len() ==> ' ' <= #[trigger] text[i] && text[i] != '"' && text[i] != '\\',
    ensures
        escaped(text) == text,
    decreases text.len(),
{
    if text.len() > 0 {
        let rest = text.drop_last();
        assert forall|i: int| 0 <= i < rest.len() implies ' ' <= #[trigger] rest[i] && rest[i]
            != '"' && rest[i] != '\\' by {
            assert(rest[i] == text[i]);
        }
        lemma_plain(rest);
        assert(text =~= rest.push(text.last()));
        assert(' ' <= text[text.len() - 1]);
    }
}

} // verus!
