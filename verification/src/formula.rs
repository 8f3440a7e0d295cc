//! The whole formula of a puzzle, and its text as a DIMACS file.

use crate::cells::{
    cell_clauses, cell_constraints, clauses_per_cell, lemma_cell_clauses_are_clauses,
    lemma_cell_clauses_len,
};
use crate::clues::{clue_clauses, lemma_clue_count_bound, line_views, parse_input, InputError};
use crate::entry::{lemma_models_concat, models, EntryModel, SatEntry};
use crate::groups::{group_clauses, sudoku_constraints};
use crate::order::{lemma_power_bounds, power, variable_count, Ordah};
use vstd::prelude::*;
use vstd::string::StringExecFns;

verus! {

/// The clauses of a puzzle: those of its clues, then those of the groups,
/// then those of the cells.
pub open spec fn clauses(n: int, lines: Seq<Seq<char>>) -> Seq<EntryModel> {
    clue_clauses(n, lines) + group_clauses(n) + cell_clauses(n)
}

/// The lines before the clauses: the comment, where there is one, then the
/// parameter line with the number of variables and of clauses.
pub open spec fn header(n: int, comment: Option<Seq<char>>, clause_count: nat) -> Seq<EntryModel> {
    let parameters = EntryModel::Parameters(variable_count(n) as nat, clause_count);
    match comment {
        Some(text) => seq![EntryModel::Comment(text), parameters],
        None => seq![parameters],
    }
}

/// The formula of a puzzle of order `n` whose grid is given as `lines`:
/// the header, then the clauses.
pub open spec fn formula(n: int, comment: Option<Seq<char>>, lines: Seq<Seq<char>>) -> Seq<
    EntryModel,
> {
    header(n, comment, clauses(n, lines).len()) + clauses(n, lines)
}

/// The text of a comment, if there is one.
pub open spec fn comment_view(comment: Option<String>) -> Option<Seq<char>> {
    match comment {
        Some(text) => Some(text@),
        None => None,
    }
}

/// The text of a DIMACS file: the text of each entry, each ended by a
/// line feed.
pub open spec fn file_text(entries: Seq<EntryModel>) -> Seq<char>
    decreases entries.len(),
{
    if entries.len() == 0 {
        Seq::empty()
    } else {
        file_text(entries.drop_last()) + entries.last().text() + seq!['\n']
    }
}

/// Encodes a puzzle: the grid's `N²` rows are given as `lines`, the first
/// line for the first row, and the result is the formula whose models are
/// the completed grids that agree with the clues. A grid of fewer than
/// `N²` lines gives no formula.
pub fn encode(order: Ordah, comment: Option<String>, lines: &Vec<String>) -> (r: Result<
    Vec<SatEntry>,
    InputError,
>)
    requires
        order.wf(),
    ensures
        lines.len() < power(order.n(), 2) ==> r == Err::<Vec<SatEntry>, InputError>(
            InputError::InputTruncated {
                expected: power(order.n(), 2) as usize,
                found: lines.len(),
            },
        ),
        lines.len() >= power(order.n(), 2) ==> r is Ok && models(r->Ok_0@) == formula(
            order.n(),
            comment_view(comment),
            line_views(lines@),
        ),
{
    let ghost n = order.n();
    let ghost texts = line_views(lines@);
    let mut all = match parse_input(order, lines) {
        Ok(clues) => clues,
        Err(e) => {
            return Err(e);
        },
    };
    let mut groups = sudoku_constraints(order);
    let mut cells = cell_constraints(order);
    proof {
        lemma_models_concat(all@, groups@);
        lemma_models_concat(all@ + groups@, cells@);
    }
    all.append(&mut groups);
    all.append(&mut cells);
    assert(models(all@) == clauses(n, texts));
    let mut entries: Vec<SatEntry> = Vec::new();
    match comment {
        Some(text) => {
            entries.push(SatEntry::Comment(text));
        },
        None => {},
    }
    entries.push(SatEntry::Parameters(order.variables(), all.len()));
    proof {
        assert(models(entries@) =~= header(n, comment_view(comment), clauses(n, texts).len()));
        lemma_models_concat(entries@, all@);
    }
    entries.append(&mut all);
    Ok(entries)
}

/// The text of a DIMACS file with the given entries, one on each line.
pub fn render_formula(entries: &Vec<SatEntry>) -> (text: String)
    ensures
        text@ == file_text(models(entries@)),
{
    let mut text = String::new();
    let ghost all = models(entries@);
    let mut i: usize = 0;
    while i < entries.len()
        invariant
            i <= entries.len(),
            all == models(entries@),
            text@ == file_text(all.take(i as int)),
        decreases entries.len() - i,
    {
        proof {
            reveal_strlit("\n");
            let next = all.take(i + 1);
            assert(next.drop_last() =~= all.take(i as int));
            assert(next.last() == entries[i as int]@);
        }
        let line = entries[i].render();
        text.append(line.as_str());
        text.append("\n");
        i += 1;
    }
    proof {
        assert(all.take(i as int) =~= all);
    }
    text
}

/// The number of lines before the clauses: one, or two with a comment.
pub open spec fn header_len(comment: Option<Seq<char>>) -> int {
    if comment is Some {
        2
    } else {
        1
    }
}

/// The clauses are those of the clues, three for each pair of a group
/// index and a value, and for each cell one and one more for each pair of
/// values.
pub proof fn lemma_clause_count(n: int, lines: Seq<Seq<char>>)
    requires
        n >= 1,
    ensures
        clauses(n, lines).len() == clue_clauses(n, lines).len() + 3 * power(n, 4) + power(n, 4)
            * clauses_per_cell(n),
        clue_clauses(n, lines).len() <= power(n, 4),
{
    lemma_power_bounds(n);
    lemma_cell_clauses_len(n, power(n, 4));
    lemma_clue_count_bound(n, lines);
}

/// The parameter line tells the truth: it is the last line of the header,
/// it gives the number of the puzzle's variables, and the number of clauses
/// that it gives is the number of lines after it, each of which is a
/// clause. No line of the header is a clause.
pub proof fn lemma_header_counts_clauses(n: int, comment: Option<Seq<char>>, lines: Seq<Seq<char>>)
    requires
        n >= 1,
    ensures
        formula(n, comment, lines).len() >= header_len(comment),
        formula(n, comment, lines)[header_len(comment) - 1] == EntryModel::Parameters(
            variable_count(n) as nat,
            (formula(n, comment, lines).len() - header_len(comment)) as nat,
        ),
        comment is Some ==> formula(n, comment, lines)[0] == EntryModel::Comment(comment->0),
        forall|i: int|
            header_len(comment) <= i < formula(n, comment, lines).len() ==> #[trigger] formula(
                n,
                comment,
                lines,
            )[i] is OrLine,
{
    lemma_power_bounds(n);
    let all = clauses(n, lines);
    let clues = clue_clauses(n, lines);
    let groups = group_clauses(n);
    let whole = formula(n, comment, lines);
    let h = header_len(comment);
    assert forall|i: int| h <= i < whole.len() implies #[trigger] whole[i] is OrLine by {
        let k = i - h;
        assert(whole[i] == all[k]);
        if k < clues.len() {
            assert(all[k] == clues[k]);
        } else if k < clues.len() + groups.len() {
            assert(all[k] == groups[k - clues.len()]);
        } else {
            let at = k - clues.len() - groups.len();
            assert(all[k] == cell_clauses(n)[at]);
            lemma_cell_clauses_are_clauses(n, power(n, 4), at);
        }
    }
}

/// Encoding is a function of its input: two runs on the same order, the
/// same comment and the same grid end alike, and where they give formulas,
/// these say the same and have the same text, character for character.
pub proof fn lemma_encode_is_deterministic(
    order: Ordah,
    comment: Option<String>,
    lines: Vec<String>,
    first: Result<Vec<SatEntry>, InputError>,
    second: Result<Vec<SatEntry>, InputError>,
)
    requires
        order.wf(),
        call_ensures(encode, (order, comment, &lines), first),
        call_ensures(encode, (order, comment, &lines), second),
    ensures
        first is Ok <==> second is Ok,
        first is Err ==> first->Err_0 == second->Err_0,
        first is Ok ==> models(first->Ok_0@) == models(second->Ok_0@) && file_text(
            models(first->Ok_0@),
        ) == file_text(models(second->Ok_0@)),
{
}

} // verus!
