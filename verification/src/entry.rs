//! The lines of a DIMACS file and their text.

use vstd::prelude::*;
use vstd::string::StringExecFns;

verus! {

/// One line of a DIMACS CNF file.
#[derive(Debug, PartialEq, Eq)]
pub enum SatEntry {
    /// A comment line carrying free text.
    Comment(String),
    /// The parameter line: the number of variables, then of clauses.
    Parameters(usize, usize),
    /// A clause: the disjunction of its literals. A positive literal is a
    /// variable, a negative one its negation.
    OrLine(Vec<isize>),
}

/// What a [`SatEntry`] says, free of machine types.
pub enum EntryModel {
    Comment(Seq<char>),
    Parameters(nat, nat),
    OrLine(Seq<int>),
}

impl View for SatEntry {
    type V = EntryModel;

    open spec fn view(&self) -> EntryModel {
        match self {
            SatEntry::Comment(text) => EntryModel::Comment(text@),
            SatEntry::Parameters(variables, clauses) => EntryModel::Parameters(
                *variables as nat,
                *clauses as nat,
            ),
            SatEntry::OrLine(items) => EntryModel::OrLine(literals(items@)),
        }
    }
}

/// The literals of a clause as mathematical integers.
pub open spec fn literals(items: Seq<isize>) -> Seq<int> {
    items.map_values(|l: isize| l as int)
}

/// The models of a list of entries, in order.
pub open spec fn models(entries: Seq<SatEntry>) -> Seq<EntryModel> {
    entries.map_values(|e: SatEntry| e@)
}

/// Appending an entry to a list appends its model to the list's models.
pub proof fn lemma_models_push(entries: Seq<SatEntry>, entry: SatEntry)
    ensures
        models(entries.push(entry)) == models(entries).push(entry@),
{
    assert(models(entries.push(entry)) =~= models(entries).push(entry@));
}

/// The models of two lists joined are the models of each, joined.
pub proof fn lemma_models_concat(front: Seq<SatEntry>, back: Seq<SatEntry>)
    ensures
        models(front + back) == models(front) + models(back),
{
    assert(models(front + back) =~= models(front) + models(back));
}

/// The character of a decimal digit.
pub open spec fn digit_char(d: int) -> char {
    seq!['0', '1', '2', '3', '4', '5', '6', '7', '8', '9'][d]
}

/// The decimal numeral of `n`, without leading zeros.
pub open spec fn decimal(n: nat) -> Seq<char>
    decreases n,
{
    if n < 10 {
        seq![digit_char(n as int)]
    } else {
        decimal(n / 10) + seq![digit_char((n % 10) as int)]
    }
}

/// The decimal numeral of `i`, with a leading minus sign when negative.
pub open spec fn signed_decimal(i: int) -> Seq<char> {
    if i < 0 {
        seq!['-'] + decimal((-i) as nat)
    } else {
        decimal(i as nat)
    }
}

/// The literals of a clause as text, each followed by one space.
pub open spec fn literals_text(items: Seq<int>) -> Seq<char>
    decreases items.len(),
{
    if items.len() == 0 {
        Seq::empty()
    } else {
        literals_text(items.drop_last()) + signed_decimal(items.last()) + seq![' ']
    }
}

impl EntryModel {
    /// The line of text that stands for this entry in a DIMACS file,
    /// without a line end.
    pub open spec fn text(self) -> Seq<char> {
        match self {
            EntryModel::Comment(text) => seq!['c', ' '] + text,
            EntryModel::Parameters(variables, clauses) => seq!['p', ' ', 'c', 'n', 'f', ' ']
                + decimal(variables) + seq![' '] + decimal(clauses),
            EntryModel::OrLine(items) => literals_text(items) + seq!['0'],
        }
    }
}

/// The one-character string of a decimal digit.
fn digit_str(d: u64) -> (r: &'static str)
    requires
        d < 10,
    ensures
        r@ == seq![digit_char(d as int)],
{
    proof {
        reveal_strlit("0");
        reveal_strlit("1");
        reveal_strlit("2");
        reveal_strlit("3");
        reveal_strlit("4");
        reveal_strlit("5");
        reveal_strlit("6");
        reveal_strlit("7");
        reveal_strlit("8");
        reveal_strlit("9");
    }
    let r = if d == 0 {
        "0"
    } else if d == 1 {
        "1"
    } else if d == 2 {
        "2"
    } else if d == 3 {
        "3"
    } else if d == 4 {
        "4"
    } else if d == 5 {
        "5"
    } else if d == 6 {
        "6"
    } else if d == 7 {
        "7"
    } else if d == 8 {
        "8"
    } else {
        "9"
    };
    assert(r@ =~= seq![digit_char(d as int)]);
    r
}

/// Appends the decimal numeral of `n` to `out`.
fn append_decimal(out: &mut String, n: u64)
    ensures
        final(out)@ == old(out)@ + decimal(n as nat),
    decreases n,
{
    if n >= 10 {
        append_decimal(out, n / 10);
    }
    out.append(digit_str(n % 10));
}

/// Appends the decimal numeral of `i`, with its sign, to `out`.
fn append_signed_decimal(out: &mut String, i: isize)
    ensures
        final(out)@ == old(out)@ + signed_decimal(i as int),
{
    if i < 0 {
        out.append("-");
        proof {
            reveal_strlit("-");
        }
        // the magnitude of the least `isize` does not fit in an `isize`
        let magnitude: u64 = (-(i + 1)) as u64 + 1;
        append_decimal(out, magnitude);
    } else {
        append_decimal(out, i as u64);
    }
}

impl SatEntry {
    /// The line of text that stands for this entry in a DIMACS file,
    /// without a line end.
    pub fn render(&self) -> (r: String)
        ensures
            r@ == self@.text(),
    {
        let mut out = String::new();
        match self {
            SatEntry::Comment(text) => {
                proof {
                    reveal_strlit("c ");
                }
                out.append("c ");
                out.append(text.as_str());
                assert(out@ =~= self@.text());
            },
            SatEntry::Parameters(variables, clauses) => {
                proof {
                    reveal_strlit("p cnf ");
                    reveal_strlit(" ");
                }
                out.append("p cnf ");
                append_decimal(&mut out, *variables as u64);
                out.append(" ");
                append_decimal(&mut out, *clauses as u64);
                assert(out@ =~= self@.text());
            },
            SatEntry::OrLine(items) => {
                let ghost all = literals(items@);
                let mut i: usize = 0;
                while i < items.len()
                    invariant
                        i <= items.len(),
                        all == literals(items@),
                        out@ == literals_text(all.take(i as int)),
                    decreases items.len() - i,
                {
                    proof {
                        reveal_strlit(" ");
                        let next = all.take(i + 1);
                        assert(next.drop_last() =~= all.take(i as int));
                        assert(next.last() == items[i as int] as int);
                    }
                    append_signed_decimal(&mut out, items[i]);
                    out.append(" ");
                    i += 1;
                }
                proof {
                    reveal_strlit("0");
                    assert(all.take(i as int) =~= all);
                }
                out.append("0");
            },
        }
        out
    }
}

} // verus!

