//! A check-your-understanding card: pick an option, check it, and the card says whether it
//! was right. The card's state is the option picked (if any) and whether it has been checked;
//! everything it shows follows from those two.

use vstd::prelude::*;

use crate::text::{append, chars_of_string, lit, same, string_of};

verus! {

/// One authored quiz card: the prompt, the options, the right answer (one of the options) and
/// an optional input shown with the prompt.
#[derive(Debug, PartialEq, Eq)]
pub struct Quiz {
    pub prompt: String,
    pub options: Vec<String>,
    pub answer: String,
    pub input: Option<String>,
}

/// Whether the option at `i` is the right answer.
pub open spec fn is_answer_at(quiz: Quiz, i: int) -> bool {
    0 <= i < quiz.options@.len() && quiz.options@[i]@ == quiz.answer@
}

/// Whether the picked option is the right answer.
pub open spec fn spec_is_correct(quiz: Quiz, selected: Option<usize>) -> bool {
    match selected {
        Some(i) => is_answer_at(quiz, i as int),
        None => false,
    }
}

/// How an option is marked: picked (before checking), right (after checking, wherever the
/// right answer is), wrong (after checking, the picked option when it is not the answer).
pub struct OptionMarks {
    pub selected: bool,
    pub right: bool,
    pub wrong: bool,
}

/// Whether the option at `i` is the right answer.
pub fn is_answer(quiz: &Quiz, i: usize) -> (b: bool)
    ensures
        b == is_answer_at(*quiz, i as int),
{
    if i >= quiz.options.len() {
        return false;
    }
    same(&chars_of_string(&quiz.options[i]), &chars_of_string(&quiz.answer))
}

/// Whether the picked option is the right answer (nothing picked is not right).
pub fn is_correct(quiz: &Quiz, selected: Option<usize>) -> (b: bool)
    ensures
        b == spec_is_correct(*quiz, selected),
{
    match selected {
        Some(i) => is_answer(quiz, i),
        None => false,
    }
}

/// The marks of the option at `i`, given what is picked and whether the card is checked.
pub fn option_marks(quiz: &Quiz, selected: Option<usize>, checked: bool, i: usize) -> (m: OptionMarks)
    ensures
        m.selected == (selected == Some(i) && !checked),
        m.right == (checked && is_answer_at(*quiz, i as int)),
        m.wrong == (checked && selected == Some(i) && !is_answer_at(*quiz, i as int)),
{
    let answer = is_answer(quiz, i);
    let picked = match selected {
        Some(s) => s == i,
        None => false,
    };
    OptionMarks { selected: picked && !checked, right: checked && answer, wrong: checked && picked && !answer }
}

/// The Check button is live once an option is picked.
pub fn can_check(selected: Option<usize>) -> (b: bool)
    ensures
        b == (selected is Some),
{
    selected.is_some()
}

/// The verdict line after checking.
pub open spec fn spec_verdict(quiz: Quiz, selected: Option<usize>) -> Seq<char> {
    if spec_is_correct(quiz, selected) {
        "Correct ✓"@
    } else {
        "Not quite — the answer is “"@ + quiz.answer@ + "”"@
    }
}

/// The verdict line after checking: right, or the right answer quoted.
pub fn verdict(quiz: &Quiz, selected: Option<usize>) -> (v: String)
    ensures
        v@ == spec_verdict(*quiz, selected),
{
    if is_correct(quiz, selected) {
        string_of(&lit("Correct ✓"))
    } else {
        let mut out = lit("Not quite — the answer is “");
        append(&mut out, &chars_of_string(&quiz.answer));
        append(&mut out, &lit("”"));
        string_of(&out)
    }
}

} // verus!
