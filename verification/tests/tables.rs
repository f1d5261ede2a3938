use oml::{from_str, Node, Person, Table};

fn leaf(value: &str) -> Node {
    Node::Item(value.to_string())
}

fn row(fields: &[&str]) -> Node {
    Node::List(fields.iter().map(|field| leaf(field)).collect())
}

fn age_of(text: &str) -> Option<u32> {
    Person::try_from(row(&["a", "b", text, "c"])).ok().map(|person| person.age)
}

#[test]
fn person_is_read_from_four_items() {
    let person = Person::try_from(row(&["Ada", "Lovelace", "36", "London"])).unwrap();
    assert_eq!(person.first_name, "Ada");
    assert_eq!(person.last_name, "Lovelace");
    assert_eq!(person.age, 36);
    assert_eq!(person.place_of_birth, "London");
}

#[test]
fn person_needs_exactly_four_fields() {
    assert!(Person::try_from(row(&["Ada", "Lovelace", "36"])).is_err());
    assert!(Person::try_from(row(&["Ada", "Lovelace", "36", "London", "x"])).is_err());
    assert!(Person::try_from(row(&[])).is_err());
    assert!(Person::try_from(leaf("Ada")).is_err());
}

#[test]
fn person_fields_must_be_items() {
    let nested = |index: usize| {
        let mut fields = vec![leaf("Ada"), leaf("Lovelace"), leaf("36"), leaf("London")];
        fields[index] = Node::List(vec![]);
        Node::List(fields)
    };
    for index in 0..4 {
        assert!(Person::try_from(nested(index)).is_err());
    }
}

#[test]
fn age_is_a_decimal_u32() {
    assert_eq!(age_of("0"), Some(0));
    assert_eq!(age_of("42"), Some(42));
    assert_eq!(age_of("+7"), Some(7));
    assert_eq!(age_of("007"), Some(7));
    assert_eq!(age_of("4294967295"), Some(u32::MAX));
    assert_eq!(age_of("00000000004294967295"), Some(u32::MAX));
}

#[test]
fn age_that_is_no_decimal_u32_is_rejected() {
    for text in
        ["", "+", "-", "-1", "-0", "++1", "1+", "4294967296", "99999999999", "1_0", " 1", "1 ", "1.0", "0x10", "ten", "１２"]
    {
        assert_eq!(age_of(text), None);
    }
}

#[test]
fn table_is_a_header_and_rows() {
    let node = from_str(
        "[\n [first last age place]\n [Ada Lovelace 36 London]\n [\"Carl Friedrich\" Gauss 77 Braunschweig]\n]",
    )
    .unwrap();
    let table = Table::try_from(node).unwrap();
    assert_eq!(table.rows.len(), 2);
    assert_eq!(table.rows[0].first_name, "Ada");
    assert_eq!(table.rows[0].age, 36);
    assert_eq!(table.rows[1].first_name, "Carl Friedrich");
    assert_eq!(table.rows[1].last_name, "Gauss");
    assert_eq!(table.rows[1].age, 77);
    assert_eq!(table.rows[1].place_of_birth, "Braunschweig");
}

#[test]
fn table_header_is_not_read_further() {
    let table = Table::try_from(from_str("[[] [a b 1 c]]").unwrap()).unwrap();
    assert_eq!(table.rows.len(), 1);
    let table = Table::try_from(from_str("[[x [y] z]]").unwrap()).unwrap();
    assert_eq!(table.rows.len(), 0);
}

#[test]
fn table_needs_a_header_list() {
    assert!(Table::try_from(from_str("[]").unwrap()).is_err());
    assert!(Table::try_from(from_str("[header [a b 1 c]]").unwrap()).is_err());
    assert!(Table::try_from(from_str("table").unwrap()).is_err());
}

#[test]
fn table_with_a_bad_row_is_rejected() {
    assert!(Table::try_from(from_str("[[h] [a b 1 c] [a b c]]").unwrap()).is_err());
    assert!(Table::try_from(from_str("[[h] [a b x c]]").unwrap()).is_err());
    assert!(Table::try_from(from_str("[[h] row]").unwrap()).is_err());
}

#[test]
fn conversion_is_reachable_through_try_into() {
    let node = from_str("[[h] [a b 5 c]]").unwrap();
    let table: Result<Table, ()> = node.try_into();
    assert_eq!(table.unwrap().rows[0].age, 5);
}
