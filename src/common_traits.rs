//! Employee records: equal by identifier, ordered by the value they bring
//! (experience over wage), read from comma-separated text.
use core::cmp::Ordering;
use vstd::prelude::*;
use crate::text::{chars_of, parse_u32, split_bounds, split_on, trim_bounds, trimmed, u32_of};

verus! {

/// A record of an employee at a particular company.
#[derive(Debug)]
pub struct Employee {
    /// The name the person likes to be called
    pub name: String,
    /// Months of experience at this company
    pub experience: u32,
    /// Hourly wage paid to this employee
    pub wage: u32,
    /// Unique identifier for this employee
    pub uid: u32,
}

/// Two employees are equal exactly when they have the same identifier.
impl PartialEq for Employee {
    fn eq(&self, other: &Employee) -> (r: bool)
        ensures
            r == (self.uid == other.uid),
    {
        self.uid == other.uid
    }
}

impl vstd::std_specs::cmp::PartialEqSpecImpl for Employee {
    open spec fn obeys_eq_spec() -> bool {
        true
    }

    open spec fn eq_spec(&self, other: &Employee) -> bool {
        self.uid == other.uid
    }
}

impl Eq for Employee {

}

/// The value an employee brings: experience divided by wage, rounded down;
/// none where the wage is zero.
pub open spec fn value_of(e: Employee) -> Option<int> {
    if e.wage == 0 {
        None
    } else {
        Some(e.experience as int / e.wage as int)
    }
}

/// Order of employees by the value they bring; employees with no wage are not ordered.
pub open spec fn value_order(a: Employee, b: Employee) -> Option<Ordering> {
    match (value_of(a), value_of(b)) {
        (Some(x), Some(y)) => Some(
            if x < y {
                Ordering::Less
            } else if x > y {
                Ordering::Greater
            } else {
                Ordering::Equal
            },
        ),
        _ => None,
    }
}

/// Employees are ordered by the value they bring to the company.
impl PartialOrd for Employee {
    fn partial_cmp(&self, other: &Employee) -> (r: Option<Ordering>)
        ensures
            r == value_order(*self, *other),
    {
        if self.wage == 0 || other.wage == 0 {
            return None;
        }
        let value = self.experience / self.wage;
        let other_value = other.experience / other.wage;
        if value < other_value {
            Some(Ordering::Less)
        } else if value > other_value {
            Some(Ordering::Greater)
        } else {
            Some(Ordering::Equal)
        }
    }
}

impl vstd::std_specs::cmp::PartialOrdSpecImpl for Employee {
    open spec fn obeys_partial_cmp_spec() -> bool {
        true
    }

    open spec fn partial_cmp_spec(&self, other: &Employee) -> Option<Ordering> {
        value_order(*self, *other)
    }
}

/// The fields of an employee record "name, experience, wage, uid": exactly four
/// comma-separated fields, each trimmed, the last three unsigned numbers.
pub open spec fn employee_of(s: Seq<char>) -> Option<(Seq<char>, u32, u32, u32)> {
    let f = split_on(s, ',');
    if f.len() == 4 && u32_of(trimmed(f[1])) is Some && u32_of(trimmed(f[2])) is Some && u32_of(
        trimmed(f[3]),
    ) is Some {
        Some(
            (
                trimmed(f[0]),
                u32_of(trimmed(f[1]))->Some_0,
                u32_of(trimmed(f[2]))->Some_0,
                u32_of(trimmed(f[3]))->Some_0,
            ),
        )
    } else {
        None
    }
}

impl Employee {
    /// Reads an employee from "name, experience, wage, uid", for example
    /// "Billy, 4, 5, 345". A wrong number of fields, or a number that is not
    /// one or does not fit in `u32`, is an error.
    pub fn parse(value: &String) -> (r: Result<Employee, ()>)
        ensures
            r matches Ok(e) ==> employee_of(value@) == Some((e.name@, e.experience, e.wage, e.uid)),
            r is Err ==> employee_of(value@) is None,
    {
        let text = value.as_str();
        let c = chars_of(text);
        let fields = split_bounds(&c, 0, c.len(), ',');
        proof {
            assert(c@.subrange(0, c@.len() as int) =~= value@);
        }
        if fields.len() != 4 {
            return Err(());
        }
        let (n0, n1) = trim_bounds(&c, fields[0].0, fields[0].1);
        let (e0, e1) = trim_bounds(&c, fields[1].0, fields[1].1);
        let (w0, w1) = trim_bounds(&c, fields[2].0, fields[2].1);
        let (u0, u1) = trim_bounds(&c, fields[3].0, fields[3].1);
        let experience = match parse_u32(&c, e0, e1) {
            Some(v) => v,
            None => {
                return Err(());
            },
        };
        let wage = match parse_u32(&c, w0, w1) {
            Some(v) => v,
            None => {
                return Err(());
            },
        };
        let uid = match parse_u32(&c, u0, u1) {
            Some(v) => v,
            None => {
                return Err(());
            },
        };
        let name = String::from_str(text.substring_char(n0, n1));
        Ok(Employee { name, experience, wage, uid })
    }
}

/// Reads an employee from "name, experience, wage, uid"; see `Employee::parse`.
impl TryFrom<String> for Employee {
    type Error = ();

    fn try_from(value: String) -> (r: Result<Employee, ()>) {
        Employee::parse(&value)
    }
}

impl vstd::std_specs::convert::TryFromSpecImpl<String> for Employee {
    open spec fn obeys_try_from_spec() -> bool {
        false
    }

    open spec fn try_from_spec(v: String) -> Result<Employee, ()> {
        Err(())
    }
}

/// The decimal digit for `d` in `0..10`.
pub open spec fn digit_char(d: int) -> char {
    if d == 0 {
        '0'
    } else if d == 1 {
        '1'
    } else if d == 2 {
        '2'
    } else if d == 3 {
        '3'
    } else if d == 4 {
        '4'
    } else if d == 5 {
        '5'
    } else if d == 6 {
        '6'
    } else if d == 7 {
        '7'
    } else if d == 8 {
        '8'
    } else {
        '9'
    }
}

/// `n` written in decimal, without leading zeros.
pub open spec fn decimal_of(n: nat) -> Seq<char>
    decreases n,
{
    if n < 10 {
        seq![digit_char(n as int)]
    } else {
        decimal_of(n / 10).push(digit_char((n % 10) as int))
    }
}

/// An employee written as "name, experience, wage, uid".
pub open spec fn employee_text(e: Employee) -> Seq<char> {
    e.name@ + ", "@ + decimal_of(e.experience as nat) + ", "@ + decimal_of(e.wage as nat) + ", "@ + decimal_of(
        e.uid as nat,
    )
}

fn digit_text(d: u32) -> (r: &'static str)
    requires
        d < 10,
    ensures
        r@ == seq![digit_char(d as int)],
{
    proof {
        reveal_strlit("0");
        reveal_strlit("1");
        reveal_strlit("2");
        reveal_strlit("3");
        reveal_strlit("4");
        reveal_strlit("5");
        reveal_strlit("6");
        reveal_strlit("7");
        reveal_strlit("8");
        reveal_strlit("9");
    }
    match d {
        0 => "0",
        1 => "1",
        2 => "2",
        3 => "3",
        4 => "4",
        5 => "5",
        6 => "6",
        7 => "7",
        8 => "8",
        _ => "9",
    }
}

/// Appends `n` in decimal to `s`.
fn append_decimal(s: &mut String, n: u32)
    ensures
        final(s)@ == old(s)@ + decimal_of(n as nat),
    decreases n,
{
    let ghost before = s@;
    if n >= 10 {
        append_decimal(s, n / 10);
    }
    s.append(digit_text(n % 10));
    proof {
        if n >= 10 {
            assert(before + decimal_of((n / 10) as nat) + seq![digit_char((n % 10) as int)] =~= before
                + decimal_of(n as nat));
        } else {
            assert(before + seq![digit_char((n % 10) as int)] =~= before + decimal_of(n as nat));
        }
    }
}

impl Employee {
    /// This employee written as "name, experience, wage, uid", the form that
    /// `Employee::parse` reads.
    pub fn to_text(&self) -> (r: String)
        ensures
            r@ == employee_text(*self),
    {
        let mut s = self.name.clone();
        s.append(", ");
        append_decimal(&mut s, self.experience);
        s.append(", ");
        append_decimal(&mut s, self.wage);
        s.append(", ");
        append_decimal(&mut s, self.uid);
        s
    }
}

/// Writes an employee as "name, experience, wage, uid"; see `Employee::to_text`.
impl From<Employee> for String {
    fn from(employee: Employee) -> (r: String) {
        employee.to_text()
    }
}

impl vstd::std_specs::convert::FromSpecImpl<Employee> for String {
    open spec fn obeys_from_spec() -> bool {
        false
    }

    open spec fn from_spec(v: Employee) -> String {
        v.name
    }
}

} // verus!
