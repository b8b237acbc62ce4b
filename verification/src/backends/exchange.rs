//! The exchange with a solver, step by step. The library decides what is
//! sent and what is made of each reply; whoever drives the exchange writes
//! to the solver, reads from it and reports back what it heard.

use crate::backends::backend::Logic;
use crate::backends::backend::SMTError;
use crate::backends::backend::SMTResult;
use crate::backends::smtlib2::lemma_script_opening;
use crate::backends::smtlib2::Problem;
use crate::backends::smtlib2::SMTLib2;
use crate::backends::text::same_text;
use std::collections::HashMap;
use vstd::prelude::*;
use vstd::string::StringExecFns;

verus! {

/// What an exchange is after.
#[derive(Clone, Copy, Debug)]
pub enum Goal {
    /// Whether the assertions are satisfiable.
    CheckSat,
    /// A model of the assertions.
    Solve,
}

/// How far an exchange has come.
#[derive(Clone, Copy, Debug)]
pub enum Stage {
    /// Nothing was sent yet.
    Opening,
    /// The declarations and assertions are on their way.
    Declaring,
    /// `(check-sat)` is on its way.
    Checking,
    /// The verdict is being read.
    Deciding,
    /// `(get-model)` is on its way.
    Requesting,
    /// The reply that precedes the model is being read.
    Skipping,
    /// The model is being read.
    Reading,
    /// The exchange is over.
    Closed,
}

/// An exchange in progress: what it is after, the bound in milliseconds on
/// each of its bounded reads, and how far it has come.
#[derive(Clone, Copy, Debug)]
pub struct Exchange {
    pub goal: Goal,
    pub timeout: Option<u64>,
    pub stage: Stage,
}

/// What an exchange ends with on success.
pub enum Answer {
    /// The verdict of `check-sat`.
    Sat(bool),
    /// The model: for each reported variable, by its handle, its value.
    Model(HashMap<usize, u64>),
}

/// What the driver of an exchange is to do next.
pub enum Action {
    /// Write the text to the solver and flush.
    Send(String),
    /// Read once from the solver, waiting no longer than the bound where
    /// there is one, and report what came.
    Receive(Option<u64>),
    /// Stop: the exchange has ended with this result.
    Finish(SMTResult<Answer>),
}

/// An `Answer` as a mathematical value.
pub enum Reading {
    Sat(bool),
    Model(Map<usize, u64>),
}

/// An `Action` as a mathematical value.
pub enum Step {
    Send(Seq<char>),
    Receive(Option<u64>),
    Finish(Result<Reading, SMTError>),
}

/// What the driver reports of its last action.
pub enum Heard {
    /// Nothing: the exchange begins, or the last action was no read.
    Nothing,
    /// The read failed or ran out of time.
    Failure,
    /// The read brought this text.
    Text(Seq<char>),
}

impl View for Action {
    type V = Step;

    open spec fn view(&self) -> Step {
        match self {
            Action::Send(text) => Step::Send(text@),
            Action::Receive(bound) => Step::Receive(*bound),
            Action::Finish(Ok(Answer::Sat(sat))) => Step::Finish(Ok(Reading::Sat(*sat))),
            Action::Finish(Ok(Answer::Model(model))) => Step::Finish(Ok(Reading::Model(model@))),
            Action::Finish(Err(error)) => Step::Finish(Err(*error)),
        }
    }
}

/// A report as a mathematical value.
pub open spec fn heard(reply: Option<Result<String, SMTError>>) -> Heard {
    match reply {
        None => Heard::Nothing,
        Some(Err(_)) => Heard::Failure,
        Some(Ok(text)) => Heard::Text(text@),
    }
}

/// The verdict that a reply to `check-sat` gives: satisfiable for the
/// exact text `sat` with a line feed, and unsatisfiable for any other.
pub open spec fn is_sat(text: Seq<char>) -> bool {
    text == "sat\n"@
}

/// Tells the verdict of a reply to `check-sat`.
pub fn sat_verdict(text: &str) -> (sat: bool)
    ensures
        sat == is_sat(text@),
{
    same_text(text, "sat\n")
}

impl Stage {
    /// An upper bound on the steps that are left from this stage on.
    pub open spec fn remaining(self) -> nat {
        match self {
            Stage::Opening => 7,
            Stage::Declaring => 6,
            Stage::Checking => 5,
            Stage::Deciding => 4,
            Stage::Requesting => 3,
            Stage::Skipping => 2,
            Stage::Reading => 1,
            Stage::Closed => 0,
        }
    }
}

impl Exchange {
    /// An exchange that has not begun.
    pub open spec fn begin(goal: Goal, timeout: Option<u64>) -> Exchange {
        Exchange { goal, timeout, stage: Stage::Opening }
    }

    /// The same exchange at another stage.
    pub open spec fn at(self, stage: Stage) -> Exchange {
        Exchange { goal: self.goal, timeout: self.timeout, stage }
    }

    /// The error for a read that brought nothing: `Timeout` where reads are
    /// bounded, `Undefined` where they are not.
    pub open spec fn read_failure(self) -> SMTError {
        match self.timeout {
            Some(_) => SMTError::Timeout,
            None => SMTError::Undefined,
        }
    }

    /// A new exchange after `goal`, its reads bounded by `timeout`
    /// milliseconds where one is given.
    pub fn new(goal: Goal, timeout: Option<u64>) -> (exchange: Exchange)
        ensures
            exchange == Exchange::begin(goal, timeout),
    {
        Exchange { goal, timeout, stage: Stage::Opening }
    }

    fn failure(&self) -> (error: SMTError)
        ensures
            error == self.read_failure(),
    {
        match self.timeout {
            Some(_) => SMTError::Timeout,
            None => SMTError::Undefined,
        }
    }
}

impl<L: Logic> Problem<L> {
    /// What a verdict leads to: for `CheckSat` the end of the exchange with
    /// the verdict; for `Solve` the request for the model where the verdict
    /// is satisfiable, and else the end, with `Unsat` for any other verdict
    /// and `Undefined` where none could be read.
    pub open spec fn decided(self, exchange: Exchange, report: Heard) -> (Exchange, Step) {
        match exchange.goal {
            Goal::CheckSat => (
                exchange.at(Stage::Closed),
                Step::Finish(
                    match report {
                        Heard::Text(text) => Ok(Reading::Sat(is_sat(text))),
                        _ => Err(exchange.read_failure()),
                    },
                ),
            ),
            Goal::Solve => match report {
                Heard::Text(text) => if is_sat(text) {
                    (exchange.at(Stage::Requesting), Step::Send("(get-model)\n"@))
                } else {
                    (exchange.at(Stage::Closed), Step::Finish(Err(SMTError::Unsat)))
                },
                _ => (exchange.at(Stage::Closed), Step::Finish(Err(SMTError::Undefined))),
            },
        }
    }

    /// What the reply that should hold the model leads to: the end of the
    /// exchange, with the model that the text makes, with `Undefined` where
    /// it makes none, and with the error of a failed read where nothing
    /// came.
    pub open spec fn concluded(self, exchange: Exchange, report: Heard) -> Step {
        Step::Finish(
            match report {
                Heard::Text(text) => match self.parsed(text) {
                    Some(model) => Ok(Reading::Model(model)),
                    None => Err(SMTError::Undefined),
                },
                _ => Err(exchange.read_failure()),
            },
        )
    }

    /// One step of an exchange: from where it stands and what was heard to
    /// where it stands next and what is to be done. The whole problem is
    /// sent, then `(check-sat)`; the verdict is read once. An exchange
    /// after a model then sends `(get-model)` and reads twice, the first
    /// reply being passed over and the second taken for the model.
    pub open spec fn next(self, exchange: Exchange, report: Heard) -> (Exchange, Step) {
        match exchange.stage {
            Stage::Opening => (exchange.at(Stage::Declaring), Step::Send(self.script())),
            Stage::Declaring => (exchange.at(Stage::Checking), Step::Send("(check-sat)\n"@)),
            Stage::Checking => (exchange.at(Stage::Deciding), Step::Receive(exchange.timeout)),
            Stage::Deciding => self.decided(exchange, report),
            Stage::Requesting => (exchange.at(Stage::Skipping), Step::Receive(exchange.timeout)),
            Stage::Skipping => (exchange.at(Stage::Reading), Step::Receive(exchange.timeout)),
            Stage::Reading => (exchange.at(Stage::Closed), self.concluded(exchange, report)),
            Stage::Closed => (exchange, Step::Finish(Err(SMTError::Undefined))),
        }
    }

    /// The steps that an exchange takes while the reports come in, one step
    /// for each report.
    pub open spec fn run(self, exchange: Exchange, reports: Seq<Heard>) -> Seq<Step>
        decreases reports.len(),
    {
        if reports.len() == 0 {
            Seq::empty()
        } else {
            let (after, step) = self.next(exchange, reports[0]);
            seq![step] + self.run(after, reports.drop_first())
        }
    }
}

impl<L: Logic> SMTLib2<L> {
    /// Begins the exchange that asks whether the assertions are
    /// satisfiable, waiting for the verdict without bound.
    pub fn check_sat(&self) -> (exchange: Exchange)
        ensures
            exchange == Exchange::begin(Goal::CheckSat, None),
    {
        Exchange::new(Goal::CheckSat, None)
    }

    /// Begins the exchange that asks whether the assertions are
    /// satisfiable, waiting for the verdict no longer than `timeout`
    /// milliseconds.
    pub fn check_sat_with_timeout(&self, timeout: u64) -> (exchange: Exchange)
        ensures
            exchange == Exchange::begin(Goal::CheckSat, Some(timeout)),
    {
        Exchange::new(Goal::CheckSat, Some(timeout))
    }

    /// Begins the exchange that asks for a model, waiting for each reply
    /// without bound.
    pub fn solve(&self) -> (exchange: Exchange)
        ensures
            exchange == Exchange::begin(Goal::Solve, None),
    {
        Exchange::new(Goal::Solve, None)
    }

    /// Begins the exchange that asks for a model, waiting for each reply,
    /// the verdict included, no longer than `timeout` milliseconds.
    pub fn solve_with_timeout(&self, timeout: u64) -> (exchange: Exchange)
        ensures
            exchange == Exchange::begin(Goal::Solve, Some(timeout)),
    {
        Exchange::new(Goal::Solve, Some(timeout))
    }

    /// Takes `exchange` one step on: `reply` is what the driver's last
    /// action brought (`None` at the beginning and after a write), and the
    /// result is what it is to do next.
    pub fn step(&self, exchange: &mut Exchange, reply: Option<Result<String, SMTError>>) -> (action:
        Action)
        requires
            self.well_formed(),
        ensures
            (*final(exchange), action@) == self@.next(*old(exchange), heard(reply)),
    {
        match exchange.stage {
            Stage::Opening => {
                exchange.stage = Stage::Declaring;
                Action::Send(self.generate_asserts())
            },
            Stage::Declaring => {
                exchange.stage = Stage::Checking;
                Action::Send(String::from_str("(check-sat)\n"))
            },
            Stage::Checking => {
                exchange.stage = Stage::Deciding;
                Action::Receive(exchange.timeout)
            },
            Stage::Deciding => {
                let failure: SMTError = exchange.failure();
                match exchange.goal {
                    Goal::CheckSat => {
                        exchange.stage = Stage::Closed;
                        match reply {
                            Some(Ok(text)) => Action::Finish(
                                Ok(Answer::Sat(sat_verdict(text.as_str()))),
                            ),
                            _ => Action::Finish(Err(failure)),
                        }
                    },
                    Goal::Solve => match reply {
                        Some(Ok(text)) => {
                            if sat_verdict(text.as_str()) {
                                exchange.stage = Stage::Requesting;
                                Action::Send(String::from_str("(get-model)\n"))
                            } else {
                                exchange.stage = Stage::Closed;
                                Action::Finish(Err(SMTError::Unsat))
                            }
                        },
                        _ => {
                            exchange.stage = Stage::Closed;
                            Action::Finish(Err(SMTError::Undefined))
                        },
                    },
                }
            },
            Stage::Requesting => {
                exchange.stage = Stage::Skipping;
                Action::Receive(exchange.timeout)
            },
            Stage::Skipping => {
                exchange.stage = Stage::Reading;
                Action::Receive(exchange.timeout)
            },
            Stage::Reading => {
                let failure: SMTError = exchange.failure();
                exchange.stage = Stage::Closed;
                match reply {
                    Some(Ok(text)) => match self.parse_solver_output(text.as_str()) {
                        Some(model) => Action::Finish(Ok(Answer::Model(model))),
                        None => Action::Finish(Err(SMTError::Undefined)),
                    },
                    _ => Action::Finish(Err(failure)),
                }
            },
            Stage::Closed => Action::Finish(Err(SMTError::Undefined)),
        }
    }
}

/// The verdict is `true` for the exact text `sat` with a line feed and for
/// no other: any other text that was read gives `false`, and no error.
pub proof fn law_sat_verdict<L: Logic>(problem: Problem<L>, timeout: Option<u64>, report: Heard)
    ensures
        ({
            let deciding = Exchange::begin(Goal::CheckSat, timeout).at(Stage::Deciding);
            let step = problem.next(deciding, report).1;
            &&& step == Step::Finish(Ok(Reading::Sat(true))) <==> report == Heard::Text("sat\n"@)
            &&& match report {
                Heard::Text(text) => !is_sat(text) ==> step == Step::Finish(
                    Ok(Reading::Sat(false)),
                ),
                _ => step == Step::Finish(Err(Exchange::begin(Goal::CheckSat, timeout).read_failure())),
            }
        }),
{
}

/// Every step either ends the exchange or brings it nearer to its end, and
/// an exchange that has ended stays closed.
pub proof fn law_exchange_ends<L: Logic>(problem: Problem<L>, exchange: Exchange, report: Heard)
    ensures
        ({
            let (after, step) = problem.next(exchange, report);
            &&& step is Finish || after.stage.remaining() < exchange.stage.remaining()
            &&& step is Finish ==> after.stage is Closed
            &&& after.goal == exchange.goal
            &&& after.timeout == exchange.timeout
        }),
{
}

/// Every read of an exchange carries the bound that the exchange was begun
/// with: the read of the verdict as much as the two reads behind
/// `(get-model)`. An exchange begun without a bound waits without one.
pub proof fn law_reads_carry_the_bound<L: Logic>(
    problem: Problem<L>,
    exchange: Exchange,
    report: Heard,
)
    ensures
        problem.next(exchange, report).1 matches Step::Receive(bound) ==> bound == exchange.timeout,
        exchange.stage is Checking || exchange.stage is Requesting || exchange.stage is Skipping
            ==> problem.next(exchange, report).1 == Step::Receive(exchange.timeout),
{
}

/// A run takes one step for each report, and its steps from the second on
/// are the run of the exchange as the first step left it.
pub proof fn lemma_run_unfold<L: Logic>(
    problem: Problem<L>,
    exchange: Exchange,
    reports: Seq<Heard>,
    i: int,
)
    requires
        0 <= i < reports.len(),
    ensures
        problem.run(exchange, reports).len() == reports.len(),
        i == 0 ==> problem.run(exchange, reports)[i] == problem.next(exchange, reports[0]).1,
        i > 0 ==> problem.run(exchange, reports)[i] == problem.run(
            problem.next(exchange, reports[0]).0,
            reports.drop_first(),
        )[i - 1],
    decreases reports.len(),
{
    reveal_with_fuel(Problem::run, 2);
    let after = problem.next(exchange, reports[0]).0;
    if reports.len() > 1 {
        lemma_run_unfold(problem, after, reports.drop_first(), 0);
    }
}

/// A closed exchange answers every report with `Undefined`.
pub proof fn lemma_run_closed<L: Logic>(
    problem: Problem<L>,
    exchange: Exchange,
    reports: Seq<Heard>,
    i: int,
)
    requires
        exchange.stage is Closed,
        0 <= i < reports.len(),
    ensures
        problem.run(exchange, reports)[i] == Step::Finish(Err(SMTError::Undefined)),
    decreases reports.len(),
{
    lemma_run_unfold(problem, exchange, reports, i);
    if i > 0 {
        lemma_run_closed(problem, exchange, reports.drop_first(), i - 1);
    }
}

/// An exchange after a model that hears any verdict but `sat` ends at the
/// verdict, with `Unsat` where a verdict was read, and never sends
/// `(get-model)`: all it ever sends is the problem and `(check-sat)`.
pub proof fn law_unsat_asks_no_model<L: Logic>(
    problem: Problem<L>,
    timeout: Option<u64>,
    reports: Seq<Heard>,
)
    requires
        reports.len() > 3,
        reports[3] != Heard::Text("sat\n"@),
    ensures
        ({
            let steps = problem.run(Exchange::begin(Goal::Solve, timeout), reports);
            &&& steps.len() == reports.len()
            &&& steps[0] == Step::Send(problem.script())
            &&& steps[1] == Step::Send("(check-sat)\n"@)
            &&& steps[2] == Step::Receive(timeout)
            &&& reports[3] is Text ==> steps[3] == Step::Finish(Err(SMTError::Unsat))
            &&& forall|i: int| 3 <= i < steps.len() ==> (#[trigger] steps[i]) is Finish
            &&& forall|i: int|
                0 <= i < steps.len() ==> #[trigger] steps[i] != Step::Send("(get-model)\n"@)
        }),
{
    let e0 = Exchange::begin(Goal::Solve, timeout);
    let r0 = reports;
    let e1 = problem.next(e0, r0[0]).0;
    let r1 = r0.drop_first();
    let e2 = problem.next(e1, r1[0]).0;
    let r2 = r1.drop_first();
    let e3 = problem.next(e2, r2[0]).0;
    let r3 = r2.drop_first();
    let e4 = problem.next(e3, r3[0]).0;
    let r4 = r3.drop_first();
    let steps = problem.run(e0, r0);
    assert(r3[0] == reports[3]);
    assert(e4.stage is Closed);
    lemma_script_opening(problem);
    reveal_strlit("(get-model)\n");
    reveal_strlit("(check-sat)\n");
    assert("(get-model)\n"@[1] == 'g');
    assert("(check-sat)\n"@[1] == 'c');
    assert forall|i: int| 0 <= i < reports.len() implies (i >= 3 ==> (#[trigger] steps[i])
        is Finish) && steps[i] != Step::Send("(get-model)\n"@) && (i == 0 ==> steps[i]
        == Step::Send(problem.script())) && (i == 1 ==> steps[i] == Step::Send("(check-sat)\n"@))
        && (i == 2 ==> steps[i] == Step::Receive(timeout)) && (i == 3 ==> steps[i] == problem.next(
        e3,
        reports[3],
    ).1) by {
        lemma_run_unfold(problem, e0, r0, i);
        if i >= 1 {
            lemma_run_unfold(problem, e1, r1, i - 1);
        }
        if i >= 2 {
            lemma_run_unfold(problem, e2, r2, i - 2);
        }
        if i >= 3 {
            lemma_run_unfold(problem, e3, r3, i - 3);
        }
        if i >= 4 {
            lemma_run_closed(problem, e4, r4, i - 4);
        }
    }
    lemma_run_unfold(problem, e0, r0, 0);
}

} // verus!
