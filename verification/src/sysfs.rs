//! The files of a power supply under `/sys/class/power_supply`.

use crate::decimal;
use crate::double;
use crate::double::Double;
use crate::text;
use vstd::prelude::*;

verus! {

/// The files of one power supply that could be read, each by its name and what it
/// holds.
pub struct SupplyFiles {
    /// Names and contents; of two entries with one name the first counts.
    pub entries: Vec<(String, String)>,
}

/// What the first entry of that name holds.
pub open spec fn content(entries: Seq<(String, String)>, name: Seq<char>) -> Option<Seq<char>>
    decreases entries.len(),
{
    if entries.len() == 0 {
        None
    } else if entries[0].0@ == name {
        Some(entries[0].1@)
    } else {
        content(entries.drop_first(), name)
    }
}

impl SupplyFiles {
    /// What the file `name` holds, without the white space around it.
    pub open spec fn text(self, name: Seq<char>) -> Option<Seq<char>> {
        match content(self.entries@, name) {
            Some(s) => Some(text::trimmed(s)),
            None => None,
        }
    }

    /// The number in the file `name`.
    pub open spec fn number(self, name: Seq<char>) -> Option<Double> {
        match self.text(name) {
            Some(s) => decimal::parsed(s),
            None => None,
        }
    }

    /// What the file `name` holds, without the white space around it. Nothing where
    /// the file could not be read.
    pub fn read(&self, name: &str) -> (r: Option<String>)
        ensures
            match self.text(name@) {
                Some(s) => r matches Some(t) && t@ == s,
                None => r is None,
            },
    {
        let mut i: usize = 0;
        assert(self.entries@.skip(0) =~= self.entries@);
        while i < self.entries.len()
            invariant
                i <= self.entries.len(),
                content(self.entries@, name@) == content(self.entries@.skip(i as int), name@),
            decreases self.entries.len() - i,
        {
            let ghost rest = self.entries@.skip(i as int);
            assert(rest[0] == self.entries@[i as int]);
            if text::same(self.entries[i].0.as_str(), name) {
                let chars: Vec<char> = text::characters(self.entries[i].1.as_str());
                return Some(text::string_of(text::trim(chars.as_slice()).as_slice()));
            }
            assert(rest.drop_first() =~= self.entries@.skip(i + 1));
            i = i + 1;
        }
        None
    }

    /// The number in the file `name`. Nothing where the file could not be read or
    /// holds no number.
    pub fn num(&self, name: &str) -> (r: Option<Double>)
        ensures
            r == self.number(name@),
    {
        match self.read(name) {
            Some(s) => decimal::parse(text::characters(s.as_str()).as_slice()),
            None => None,
        }
    }

    /// The number in the file `name`, which counts millionths.
    pub fn micro(&self, name: &str) -> (r: Option<Double>)
        ensures
            r == millionths(self.number(name@)),
    {
        match self.num(name) {
            Some(v) => Some(v.over(Double::from_u64(1_000_000))),
            None => None,
        }
    }
}

/// A number of millionths as a number of wholes.
pub open spec fn millionths(v: Option<Double>) -> Option<Double> {
    match v {
        Some(x) => Some(double::quotient(x, double::whole(1_000_000))),
        None => None,
    }
}

/// The product, where both factors are known.
pub open spec fn both_times(a: Option<Double>, b: Option<Double>) -> Option<Double> {
    match (a, b) {
        (Some(x), Some(y)) => Some(double::product(x, y)),
        _ => None,
    }
}

/// The product, where both factors are known.
pub fn multiply(a: Option<Double>, b: Option<Double>) -> (r: Option<Double>)
    ensures
        r == both_times(a, b),
{
    match (a, b) {
        (Some(x), Some(y)) => Some(x.times(y)),
        _ => None,
    }
}

/// The first that is known.
pub open spec fn first_known(a: Option<Double>, b: Option<Double>) -> Option<Double> {
    match a {
        Some(x) => Some(x),
        None => b,
    }
}

/// The first that is known.
pub fn first_of(a: Option<Double>, b: Option<Double>) -> (r: Option<Double>)
    ensures
        r == first_known(a, b),
{
    match a {
        Some(x) => Some(x),
        None => b,
    }
}

/// The text where there is one, and otherwise `default`.
pub open spec fn text_or(s: Option<Seq<char>>, default: Seq<char>) -> Seq<char> {
    match s {
        Some(t) => t,
        None => default,
    }
}

/// An optional text by its view.
pub open spec fn text_view(s: Option<String>) -> Option<Seq<char>> {
    match s {
        Some(t) => Some(t@),
        None => None,
    }
}

/// The text where there is one, and otherwise `default`.
pub fn or_text(s: Option<String>, default: &str) -> (r: String)
    ensures
        r@ == text_or(text_view(s), default@),
{
    match s {
        Some(t) => t,
        None => default.to_owned(),
    }
}

/// A file holds what the first entry of its name says, and one without an entry could not
/// be read.
pub proof fn law_the_first_entry_counts(
    entries: Seq<(String, String)>,
    name: Seq<char>,
    i: int,
)
    requires
        0 <= i <= entries.len(),
        forall|k: int| 0 <= k < i ==> (#[trigger] entries[k]).0@ != name,
        i < entries.len() ==> entries[i].0@ == name,
    ensures
        i < entries.len() ==> content(entries, name) == Some(entries[i].1@),
        i == entries.len() ==> content(entries, name) is None,
    decreases entries.len(),
{
    if i > 0 {
        let rest = entries.drop_first();
        assert(entries[0].0@ != name);
        assert forall|k: int| 0 <= k < i - 1 implies (#[trigger] rest[k]).0@ != name by {
            assert(rest[k] == entries[k + 1]);
        }
        law_the_first_entry_counts(rest, name, i - 1);
    }
}

/// The text of a file is what it holds without the white space around it, and its number
/// is the one that this text writes; neither is there where the file could not be read.
pub proof fn law_files_are_read_without_white_space(f: SupplyFiles, name: Seq<char>)
    ensures
        content(f.entries@, name) matches Some(s) ==> f.text(name) == Some(text::trimmed(s))
            && f.number(name) == decimal::parsed(text::trimmed(s)),
        content(f.entries@, name) is None ==> f.text(name) is None && f.number(name) is None,
{
}

/// A million millionths are one whole, and what is not known stays so.
pub proof fn law_a_million_millionths_are_one(n: nat)
    requires
        n * 1000000 < 2 * double::STEP,
    ensures
        millionths(Some(double::whole(n * 1000000))) == Some(double::whole(n)),
        millionths(None) is None,
{
    double::law_multiples_divide(n, 1000000);
}

/// A product is there where both factors are, and of two values the first that is known is
/// taken.
pub proof fn law_what_is_known_is_used(a: Option<Double>, b: Option<Double>)
    ensures
        a is Some && b is Some ==> both_times(a, b) == Some(double::product(a->0, b->0)),
        a is None || b is None ==> both_times(a, b) is None,
        a is Some ==> first_known(a, b) == a,
        a is None ==> first_known(a, b) == b,
{
}

/// A text that is there is taken, and its replacement where it is not.
pub proof fn law_texts_are_replaced_where_missing(s: Option<Seq<char>>, default: Seq<char>)
    ensures
        s matches Some(t) ==> text_or(s, default) == t,
        s is None ==> text_or(s, default) == default,
{
}

} // verus!
