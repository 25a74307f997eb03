//! Texts that come in pairs, and the units of measured numbers: how the
//! unit of a product or a quotient is written.
use crate::text::write_line;
use vstd::prelude::*;
use vstd::string::*;

verus! {

/// Two texts.
pub struct DoubleString(pub String, pub String);

/// How a pair of texts is shown: in round brackets, with a comma and a
/// space between the two.
pub open spec fn shown(first: Seq<char>, second: Seq<char>) -> Seq<char> {
    seq!['('] + first + seq![',', ' '] + second + seq![')']
}

impl DoubleString {
    /// A pair of copies of two string slices.
    pub fn from_strs(str_1: &str, str_2: &str) -> (pair: Self)
        ensures
            pair.0@ == str_1@,
            pair.1@ == str_2@,
    {
        Self(String::from_str(str_1), String::from_str(str_2))
    }

    /// A pair of copies of two strings.
    pub fn from_strings(str_1: &String, str_2: &String) -> (pair: Self)
        ensures
            pair.0@ == str_1@,
            pair.1@ == str_2@,
    {
        Self(str_1.clone(), str_2.clone())
    }

    /// The pair as it is shown.
    pub fn to_string(&self) -> (text: String)
        ensures
            text@ == shown(self.0@, self.1@),
    {
        proof {
            reveal_strlit("(");
            reveal_strlit(", ");
            reveal_strlit(")");
        }
        let mut text = String::from_str("(");
        text.append(self.0.as_str());
        text.append(", ");
        text.append(self.1.as_str());
        text.append(")");
        assert(text@ =~= shown(self.0@, self.1@));
        text
    }

    /// Prints the pair on a line of its own.
    pub fn show(&self) {
        let text = self.to_string();
        write_line(text.as_str());
    }
}

/// The unit of a product or quotient: the two units with the sign of the
/// operation between them.
pub fn compound_unit(first: &str, sign: &str, second: &str) -> (unit: String)
    ensures
        unit@ == first@ + sign@ + second@,
{
    let mut unit = String::from_str(first);
    unit.append(sign);
    unit.append(second);
    unit
}

/// The units joined by `sign`: nothing for no unit, the unit itself for one.
pub open spec fn joined(units: Seq<String>, sign: Seq<char>) -> Seq<char>
    decreases units.len(),
{
    if units.len() == 0 {
        Seq::empty()
    } else if units.len() == 1 {
        units[0]@
    } else {
        joined(units.drop_last(), sign) + sign + units.last()@
    }
}

/// The unit of the product of numbers with the given units: the units with
/// the sign of multiplication between neighbours.
pub fn product_unit(units: &Vec<String>) -> (unit: String)
    ensures
        unit@ == joined(units@, seq!['*']),
{
    proof {
        reveal_strlit("*");
    }
    let mut unit = String::new();
    let mut i: usize = 0;
    assert(units@.take(0) =~= Seq::<String>::empty());
    while i < units.len()
        invariant
            i <= units@.len(),
            "*"@ == seq!['*'],
            unit@ == joined(units@.take(i as int), seq!['*']),
        decreases units@.len() - i,
    {
        proof {
            assert(units@.take(i + 1).drop_last() =~= units@.take(i as int));
        }
        if i > 0 {
            unit.append("*");
        }
        unit.append(units[i].as_str());
        i = i + 1;
        assert(unit@ =~= joined(units@.take(i as int), seq!['*']));
    }
    assert(units@.take(i as int) =~= units@);
    unit
}

} // verus!
