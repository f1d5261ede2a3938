//! Binding a parsed tree onto records: a table is a list whose first element
//! is a header list and whose other elements are rows of four items each.

use vstd::prelude::*;
use vstd::std_specs::convert::TryFromSpecImpl;
use crate::node::{forest_view, Node, Tree};

verus! {

/// `core::num::ParseIntError` of the standard library, the error that
/// `str::parse` gives for an integer. It is carried through unread.
#[verifier::external_type_specification]
#[verifier::external_body]
pub struct ExParseIntError(core::num::ParseIntError);

/// Whether a character is one of the ten decimal digits.
pub open spec fn is_digit(ch: char) -> bool {
    '0' <= ch <= '9'
}

/// The number that a sequence of decimal digits writes, most significant
/// digit first.
pub open spec fn decimal_value(digits: Seq<char>) -> nat
    decreases digits.len(),
{
    if digits.len() == 0 {
        0
    } else {
        10 * decimal_value(digits.drop_last()) + (digits.last() as nat - '0' as nat) as nat
    }
}

/// The number that a text writes if it is made of decimal digits only, at
/// least one, and the number fits in a `u32`.
pub open spec fn unsigned_u32(digits: Seq<char>) -> Option<u32> {
    if digits.len() > 0 && (forall|i: int| 0 <= i < digits.len() ==> is_digit(#[trigger] digits[i]))
        && decimal_value(digits) <= u32::MAX {
        Some(decimal_value(digits) as u32)
    } else {
        None
    }
}

/// The `u32` that a text writes in decimal: an optional `+`, then one digit
/// or more and nothing else, with a value that fits. Any other text writes
/// no number.
pub open spec fn decimal_u32(text: Seq<char>) -> Option<u32> {
    if text.len() > 0 && text[0] == '+' {
        unsigned_u32(text.skip(1))
    } else {
        unsigned_u32(text)
    }
}

/// `str::parse::<u32>` of the standard library. It accepts an optional `+`
/// followed by decimal digits only, at least one, and returns their value;
/// it fails on every other text, and on a value above `u32::MAX`.
#[verifier::external_body]
fn parse_u32(text: &str) -> (number: Result<u32, core::num::ParseIntError>)
    ensures
        match decimal_u32(text@) {
            Some(value) => number matches Ok(n) && n == value,
            None => number is Err,
        },
{
    text.parse::<u32>()
}

/// The mathematical model of a [`Person`].
pub struct PersonView {
    pub first_name: Seq<char>,
    pub last_name: Seq<char>,
    pub age: u32,
    pub place_of_birth: Seq<char>,
}

/// One row of a table.
#[derive(Debug)]
pub struct Person {
    pub first_name: String,
    pub last_name: String,
    pub age: u32,
    pub place_of_birth: String,
}

impl View for Person {
    type V = PersonView;

    open spec fn view(&self) -> PersonView {
        PersonView {
            first_name: self.first_name@,
            last_name: self.last_name@,
            age: self.age,
            place_of_birth: self.place_of_birth@,
        }
    }
}

/// A table: its rows, in order.
#[derive(Debug)]
pub struct Table {
    pub rows: Vec<Person>,
}

impl View for Table {
    type V = Seq<PersonView>;

    open spec fn view(&self) -> Seq<PersonView> {
        self.rows@.map_values(|row: Person| row@)
    }
}

/// The person that a tree describes: a list of exactly four items, which are
/// the first name, the last name, the age as a decimal `u32`, and the place
/// of birth. Any other tree describes none.
pub open spec fn person_of(tree: Tree) -> Option<PersonView> {
    match tree {
        Tree::List(fields) => {
            if fields.len() == 4 && fields[0] is Item && fields[1] is Item && fields[2] is Item
                && fields[3] is Item {
                match decimal_u32(fields[2]->Item_0) {
                    Some(age) => Some(
                        PersonView {
                            first_name: fields[0]->Item_0,
                            last_name: fields[1]->Item_0,
                            age,
                            place_of_birth: fields[3]->Item_0,
                        },
                    ),
                    None => None,
                }
            } else {
                None
            }
        },
        Tree::Item(_) => None,
    }
}

/// The rows that a tree describes: a list whose first element is a list,
/// the header, which is not read further, and whose other elements each
/// describe a person. Any other tree describes no table.
pub open spec fn table_of(tree: Tree) -> Option<Seq<PersonView>> {
    match tree {
        Tree::List(elements) => {
            if elements.len() >= 1 && elements[0] is List && (forall|i: int|
                1 <= i < elements.len() ==> person_of(#[trigger] elements[i]) is Some) {
                Some(Seq::new((elements.len() - 1) as nat, |i: int| person_of(elements[i + 1])->0))
            } else {
                None
            }
        },
        Tree::Item(_) => None,
    }
}

/// The conversion is specified by the `ensures` of `try_from` below, over
/// models; no executable value is named for its result.
impl TryFromSpecImpl<Node> for Person {
    open spec fn obeys_try_from_spec() -> bool {
        false
    }

    open spec fn try_from_spec(node: Node) -> Result<Self, ()> {
        arbitrary()
    }
}

impl TryFrom<Node> for Person {
    type Error = ();

    /// Reads a person from a node; see [`person_of`].
    fn try_from(node: Node) -> (person: Result<Person, ()>)
        ensures
            match person_of(node@) {
                Some(expected) => person matches Ok(found) && found@ == expected,
                None => person is Err,
            },
    {
        let mut fields = node.as_list().ok_or(())?;
        if fields.len() != 4 {
            return Err(());
        }
        let place_of_birth = fields.pop().ok_or(())?.as_item().ok_or(())?;
        let age_text = fields.pop().ok_or(())?.as_item().ok_or(())?;
        let last_name = fields.pop().ok_or(())?.as_item().ok_or(())?;
        let first_name = fields.pop().ok_or(())?.as_item().ok_or(())?;
        let age = match parse_u32(age_text.as_str()) {
            Ok(age) => age,
            Err(_) => {
                return Err(());
            },
        };
        Ok(Person { first_name, last_name, age, place_of_birth })
    }
}

/// The conversion is specified by the `ensures` of `try_from` below, over
/// models; no executable value is named for its result.
impl TryFromSpecImpl<Node> for Table {
    open spec fn obeys_try_from_spec() -> bool {
        false
    }

    open spec fn try_from_spec(node: Node) -> Result<Self, ()> {
        arbitrary()
    }
}

impl TryFrom<Node> for Table {
    type Error = ();

    /// Reads a table from a node; see [`table_of`].
    fn try_from(node: Node) -> (table: Result<Table, ()>)
        ensures
            match table_of(node@) {
                Some(expected) => table matches Ok(found) && found@ == expected,
                None => table is Err,
            },
    {
        let elements = node.as_list().ok_or(())?;
        let ghost trees = forest_view(elements@);
        let mut rows: Vec<Person> = Vec::new();
        let mut header_seen = false;
        for element in it: elements
            invariant
                it.seq() == elements@,
                trees == forest_view(elements@),
                node@ == Tree::List(trees),
                header_seen == (it.index() > 0),
                header_seen ==> trees[0] is List,
                rows@.len() == if header_seen { it.index() - 1 } else { 0 },
                forall|i: int| 1 <= i < it.index() ==> person_of(#[trigger] trees[i]) == Some(rows@[i - 1]@),
        {
            assert(trees[it.index()] == element@);
            if header_seen {
                let row = Person::try_from(element)?;
                rows.push(row);
            } else {
                element.as_list().ok_or(())?;
                header_seen = true;
            }
        }
        if !header_seen {
            return Err(());
        }
        let table = Table { rows };
        assert(table@ =~= table_of(node@)->0);
        Ok(table)
    }
}

} // verus!
