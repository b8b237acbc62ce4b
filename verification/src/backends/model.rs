//! Reading a model: the `define-fun` blocks of a solver's answer, the
//! numbers they assign, and the variables they assign them to.

use crate::backends::backend::Logic;
use crate::backends::smtlib2::Problem;
use crate::backends::smtlib2::SMTLib2;
use crate::backends::text::chars_of;
use crate::backends::text::parse_radix;
use crate::backends::text::parse_u64;
use std::collections::HashMap;
use vstd::prelude::*;

verus! {

/// `regex::Error`, the error of a pattern that does not compile.
#[verifier::external_type_specification]
#[verifier::external_body]
pub struct ExRegexError(regex::Error);

/// One match of a pattern with two named groups: the text that each group
/// took, where it took part in the match.
pub type Capture = (Option<String>, Option<String>);

/// A `Capture` as a mathematical value.
pub type CaptureView = (Option<Seq<char>>, Option<Seq<char>>);

/// The text of an optional string.
pub open spec fn text_of(s: Option<String>) -> Option<Seq<char>> {
    match s {
        Some(text) => Some(text@),
        None => None,
    }
}

/// The captures as mathematical values.
pub open spec fn captures_view(captures: Seq<Capture>) -> Seq<CaptureView> {
    captures.map_values(|c: Capture| (text_of(c.0), text_of(c.1)))
}

/// What the regular expression `pattern` finds in `text`: for each of its
/// successive non-overlapping matches, leftmost first, what the groups
/// named `first` and `second` took. `None` where `pattern` is no regular
/// expression that the engine accepts.
pub uninterp spec fn regex_captures(
    pattern: Seq<char>,
    first: Seq<char>,
    second: Seq<char>,
    text: Seq<char>,
) -> Option<Seq<CaptureView>>;

/// `regex::Regex::new` on `pattern`, then `Regex::captures_iter` on `text`;
/// of each match the groups `first` and `second` are read with
/// `Captures::name` and copied out with `Match::as_str`. The result is a
/// function of the four texts alone, and nothing more is claimed of it. An
/// error comes back exactly where the pattern does not compile.
#[verifier::external_body]
pub(crate) fn captures_named(pattern: &str, first: &str, second: &str, text: &str) -> (found:
    Result<Vec<Capture>, regex::Error>)
    ensures
        match found {
            Ok(captures) => regex_captures(pattern@, first@, second@, text@) == Some(
                captures_view(captures@),
            ),
            Err(_) => regex_captures(pattern@, first@, second@, text@) is None,
        },
{
    let re = regex::Regex::new(pattern)?;
    Ok(
        re.captures_iter(text).map(
            |c|
                (
                    c.name(first).map(|m| m.as_str().to_owned()),
                    c.name(second).map(|m| m.as_str().to_owned()),
                ),
        ).collect(),
    )
}

/// The pattern of one `define-fun` block of a model:
/// `(define-fun NAME () SORT VALUE)`, with white space of any kind between
/// the sort and the value and, if any, between the value and the closing
/// parenthesis. The name is made of letters, digits and underscores. The
/// sort is made of letters, digits, underscores and spaces and may stand in
/// one pair of parentheses. The value is a decimal numeral, or `#x` and
/// hexadecimal digits of either case, or `#b` and binary digits.
pub const MODEL_PATTERN: &'static str =
    r"\(define-fun (?P<var>[0-9a-zA-Z_]+) \(\) [(]?[ _a-zA-Z0-9]+[)]?\s+(?P<val>([0-9]+|#x[0-9a-fA-F]+|#b[01]+))\s*\)";

/// The `define-fun` blocks that `output` holds, each as the name and the
/// value token it gives.
pub open spec fn model_blocks(output: Seq<char>) -> Option<Seq<CaptureView>> {
    regex_captures(MODEL_PATTERN@, "var"@, "val"@, output)
}

/// The number that a value token writes: hexadecimal behind `#x`, binary
/// behind `#b`, and decimal otherwise.
pub open spec fn decode(token: Seq<char>) -> Option<u64> {
    if token.len() > 2 && token[0] == '#' && token[1] == 'x' {
        parse_radix(token.subrange(2, token.len() as int), 16)
    } else if token.len() > 2 && token[0] == '#' && token[1] == 'b' {
        parse_radix(token.subrange(2, token.len() as int), 2)
    } else {
        parse_radix(token, 10)
    }
}

/// Decodes a value token of a model to an unsigned 64-bit integer: `#x`
/// introduces hexadecimal digits, `#b` binary digits, and anything else is
/// read as a decimal numeral. `None` where the token is no numeral of its
/// base or the number does not fit.
pub fn decode_value(token: &str) -> (value: Option<u64>)
    ensures
        value == decode(token@),
{
    let chars: Vec<char> = chars_of(token);
    if chars.len() > 2 && chars[0] == '#' && chars[1] == 'x' {
        parse_u64(&chars, 2, 16)
    } else if chars.len() > 2 && chars[0] == '#' && chars[1] == 'b' {
        parse_u64(&chars, 2, 2)
    } else {
        assert(chars@.subrange(0, chars@.len() as int) =~= chars@);
        parse_u64(&chars, 0, 10)
    }
}

impl<L: Logic> Problem<L> {
    /// What one block assigns: the handle registered under its name and the
    /// number of its value. `None` where a group is missing, the name is
    /// not registered or the value does not decode.
    pub open spec fn reading(self, block: CaptureView) -> Option<(usize, u64)> {
        match block {
            (Some(name), Some(token)) => match (self.handle_of(name), decode(token)) {
                (Some(handle), Some(value)) => Some((handle, value)),
                _ => None,
            },
            _ => None,
        }
    }

    /// The assignment that the first `k` of `blocks` make, a later block
    /// overriding an earlier one for the same handle. `None` where one of
    /// them has no reading.
    pub open spec fn model_upto(self, blocks: Seq<CaptureView>, k: nat) -> Option<Map<usize, u64>>
        decreases k,
    {
        if 0 < k <= blocks.len() {
            match (self.model_upto(blocks, (k - 1) as nat), self.reading(blocks[k - 1])) {
                (Some(model), Some((handle, value))) => Some(model.insert(handle, value)),
                _ => None,
            }
        } else {
            Some(Map::empty())
        }
    }

    /// The assignment that `blocks` make.
    pub open spec fn model_of(self, blocks: Seq<CaptureView>) -> Option<Map<usize, u64>> {
        self.model_upto(blocks, blocks.len())
    }

    /// The assignment that a solver's answer `output` makes.
    pub open spec fn parsed(self, output: Seq<char>) -> Option<Map<usize, u64>> {
        match model_blocks(output) {
            Some(blocks) => self.model_of(blocks),
            None => None,
        }
    }
}

/// The assignment as a mathematical value.
pub open spec fn model_view(model: Option<HashMap<usize, u64>>) -> Option<Map<usize, u64>> {
    match model {
        Some(map) => Some(map@),
        None => None,
    }
}

impl<L: Logic> SMTLib2<L> {
    /// Builds the assignment that the blocks of a model make: each name is
    /// resolved to the handle registered under it, each value token is
    /// decoded. `None` where a block has no reading.
    pub fn model_from_captures(&self, captures: &Vec<Capture>) -> (model: Option<
        HashMap<usize, u64>,
    >)
        ensures
            model_view(model) == self@.model_of(captures_view(captures@)),
    {
        broadcast use vstd::std_specs::hash::group_hash_axioms;

        let ghost blocks = captures_view(captures@);
        let mut result: HashMap<usize, u64> = HashMap::new();
        let mut k: usize = 0;
        while k < captures.len()
            invariant
                k <= captures@.len(),
                blocks == captures_view(captures@),
                self@.model_upto(blocks, k as nat) == Some(result@),
            decreases captures@.len() - k,
        {
            let capture: &Capture = &captures[k];
            assert(blocks[k as int] == (text_of(capture.0), text_of(capture.1)));
            let reading: Option<(usize, u64)> = match (&capture.0, &capture.1) {
                (Some(name), Some(token)) => {
                    match (self.lookup(name.as_str()), decode_value(token.as_str())) {
                        (Some(handle), Some(value)) => Some((handle, value)),
                        _ => None,
                    }
                },
                _ => None,
            };
            assert(reading == self@.reading(blocks[k as int]));
            match reading {
                Some((handle, value)) => {
                    result.insert(handle, value);
                },
                None => {
                    proof {
                        lemma_model_fails(self@, blocks, (k + 1) as nat);
                    }
                    return None;
                },
            }
            k = k + 1;
        }
        Some(result)
    }

    /// Reads the model out of a solver's answer to `get-model`.
    pub fn parse_solver_output(&self, output: &str) -> (model: Option<HashMap<usize, u64>>)
        ensures
            model_view(model) == self@.parsed(output@),
    {
        match captures_named(MODEL_PATTERN, "var", "val", output) {
            Ok(captures) => self.model_from_captures(&captures),
            Err(_) => None,
        }
    }
}

/// Once a prefix of the blocks has no assignment, the whole has none.
pub proof fn lemma_model_fails<L: Logic>(problem: Problem<L>, blocks: Seq<CaptureView>, k: nat)
    requires
        k <= blocks.len(),
        problem.model_upto(blocks, k) is None,
    ensures
        problem.model_of(blocks) is None,
    decreases blocks.len() - k,
{
    if k < blocks.len() {
        lemma_model_fails(problem, blocks, k + 1);
    }
}

/// The blocks make an assignment exactly when each of them has a reading.
pub proof fn law_model_exists<L: Logic>(problem: Problem<L>, blocks: Seq<CaptureView>)
    ensures
        problem.model_of(blocks) is Some <==> forall|i: int|
            0 <= i < blocks.len() ==> problem.reading(#[trigger] blocks[i]) is Some,
{
    if forall|i: int| 0 <= i < blocks.len() ==> problem.reading(#[trigger] blocks[i]) is Some {
        lemma_model_upto(problem, blocks, blocks.len());
    } else {
        let i = choose|i: int| 0 <= i < blocks.len() && problem.reading(#[trigger] blocks[i]) is None;
        if problem.model_upto(blocks, i as nat) is Some {
            assert(problem.model_upto(blocks, (i + 1) as nat) is None);
            lemma_model_fails(problem, blocks, (i + 1) as nat);
        } else {
            lemma_model_fails(problem, blocks, i as nat);
        }
    }
}

/// What a model holds. Where every block names a registered variable and
/// gives a value that decodes, the assignment has a key for the handle of
/// each block and no other key: a registered variable without a block is
/// absent. Each handle is assigned the decoded value of the last block that
/// names it: hexadecimal behind `#x`, binary behind `#b`, decimal otherwise.
pub proof fn law_model_reads<L: Logic>(problem: Problem<L>, blocks: Seq<CaptureView>)
    requires
        forall|i: int| 0 <= i < blocks.len() ==> problem.reading(#[trigger] blocks[i]) is Some,
    ensures
        problem.model_of(blocks) is Some,
        forall|h: usize|
            problem.model_of(blocks)->0.contains_key(h) <==> exists|i: int|
                0 <= i < blocks.len() && (problem.reading(#[trigger] blocks[i])->0).0 == h,
        forall|i: int|
            0 <= i < blocks.len() && (forall|j: int|
                i < j < blocks.len() ==> (problem.reading(#[trigger] blocks[j])->0).0 != (
                problem.reading(blocks[i])->0).0) ==> problem.model_of(blocks)->0[(problem.reading(
                #[trigger] blocks[i],
            )->0).0] == (problem.reading(blocks[i])->0).1,
        forall|i: int|
            0 <= i < blocks.len() ==> (#[trigger] blocks[i]).0 is Some && blocks[i].1 is Some
                && problem.reading(blocks[i]) == Some(
                (problem.handle_of(blocks[i].0->0)->0, decode(blocks[i].1->0)->0),
            ),
{
    lemma_model_upto(problem, blocks, blocks.len());
}

/// The assignment of the first `k` blocks, where each of them has a
/// reading: its keys are their handles, and each handle has the value of
/// the last of them that names it.
pub proof fn lemma_model_upto<L: Logic>(problem: Problem<L>, blocks: Seq<CaptureView>, k: nat)
    requires
        k <= blocks.len(),
        forall|i: int| 0 <= i < blocks.len() ==> problem.reading(#[trigger] blocks[i]) is Some,
    ensures
        problem.model_upto(blocks, k) is Some,
        forall|h: usize|
            problem.model_upto(blocks, k)->0.contains_key(h) <==> exists|i: int|
                0 <= i < k && (problem.reading(#[trigger] blocks[i])->0).0 == h,
        forall|i: int|
            0 <= i < k && (forall|j: int|
                i < j < k ==> (problem.reading(#[trigger] blocks[j])->0).0 != (problem.reading(
                    blocks[i],
                )->0).0) ==> problem.model_upto(blocks, k)->0[(problem.reading(
                #[trigger] blocks[i],
            )->0).0] == (problem.reading(blocks[i])->0).1,
    decreases k,
{
    if k > 0 {
        lemma_model_upto(problem, blocks, (k - 1) as nat);
        let earlier = problem.model_upto(blocks, (k - 1) as nat)->0;
        let last = problem.reading(blocks[k - 1])->0;
        let model = problem.model_upto(blocks, k)->0;
        assert(model == earlier.insert(last.0, last.1));
        assert forall|h: usize| model.contains_key(h) implies exists|i: int|
            0 <= i < k && (problem.reading(#[trigger] blocks[i])->0).0 == h by {
            if h == last.0 {
                assert((problem.reading(blocks[k - 1])->0).0 == h);
            } else {
                let i = choose|i: int|
                    0 <= i < k - 1 && (problem.reading(#[trigger] blocks[i])->0).0 == h;
                assert(0 <= i < k && (problem.reading(blocks[i])->0).0 == h);
            }
        }
        assert forall|h: usize|
            (exists|i: int| 0 <= i < k && (problem.reading(#[trigger] blocks[i])->0).0 == h)
            implies model.contains_key(h) by {
            let i = choose|i: int| 0 <= i < k && (problem.reading(#[trigger] blocks[i])->0).0 == h;
            if i < k - 1 {
                assert(earlier.contains_key(h));
            }
        }
        assert forall|i: int|
            0 <= i < k && (forall|j: int|
                i < j < k ==> (problem.reading(#[trigger] blocks[j])->0).0 != (problem.reading(
                    blocks[i],
                )->0).0) implies model[(problem.reading(#[trigger] blocks[i])->0).0] == (
        problem.reading(blocks[i])->0).1 by {
            if i < k - 1 {
                assert((problem.reading(blocks[k - 1])->0).0 != (problem.reading(blocks[i])->0).0);
                assert forall|j: int| i < j < k - 1 implies (problem.reading(
                    #[trigger] blocks[j],
                )->0).0 != (problem.reading(blocks[i])->0).0 by {}
            }
        }
    }
}

} // verus!
