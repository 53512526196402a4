use crate::parser::{lemma_block_view, SpecStatement, Statement};
use crate::runtime::{
    eval_expr, expr_value, is_true, run_items, run_program, run_statement, text_of, value_text,
    Effect, Environment, EvalError, SpecEvalError, SpecValue,
};
use vstd::prelude::*;

verus! {

/// What a machine has still to do: run a statement, or run the statements of a block from a
/// position on.
pub enum Task<'a> {
    Run(&'a Statement),
    Rest(&'a Vec<Statement>, usize),
}

/// The mathematical model of a [`Task`]: of a block, the statements that are left.
pub enum SpecTask {
    Run(SpecStatement),
    Rest(Seq<SpecStatement>),
}

impl<'a> DeepView for Task<'a> {
    type V = SpecTask;

    open spec fn deep_view(&self) -> SpecTask {
        match *self {
            Task::Run(statement) => SpecTask::Run(statement.deep_view()),
            Task::Rest(items, from) => SpecTask::Rest(
                if from <= items.len() {
                    items.deep_view().skip(from as int)
                } else {
                    Seq::empty()
                },
            ),
        }
    }
}

/// What a step of a machine tells its caller.
#[derive(Debug, PartialEq)]
pub enum Event {
    /// A `print` ran: the line that it wrote.
    Printed(String),
    /// Nothing is left to do.
    Finished,
    /// An error stopped the run.
    Failed(EvalError),
    /// The run went on, or waits to go on, with nothing to tell.
    Paused,
}

/// The mathematical model of an [`Event`].
pub enum SpecEvent {
    Printed(Seq<char>),
    Finished,
    Failed(SpecEvalError),
    Paused,
}

impl DeepView for Event {
    type V = SpecEvent;

    open spec fn deep_view(&self) -> SpecEvent {
        match *self {
            Event::Printed(line) => SpecEvent::Printed(line@),
            Event::Finished => SpecEvent::Finished,
            Event::Failed(e) => SpecEvent::Failed(e.deep_view()),
            Event::Paused => SpecEvent::Paused,
        }
    }
}

/// The mathematical model of a [`Machine`]: the environment, and the tasks that are left, the
/// next one last.
pub struct SpecMachine {
    pub env: Map<Seq<char>, SpecValue>,
    pub tasks: Seq<SpecTask>,
}

/// The machine that is about to run `program` from the empty environment.
pub open spec fn start(program: Seq<SpecStatement>) -> SpecMachine {
    SpecMachine { env: Map::empty(), tasks: seq![SpecTask::Rest(program)] }
}

/// The machine `m` with the next task taken off and `tasks` put in its place.
pub open spec fn goes_on(m: SpecMachine, env: Map<Seq<char>, SpecValue>, tasks: Seq<SpecTask>) -> (
    SpecMachine,
    SpecEvent,
) {
    (SpecMachine { env, tasks: m.tasks.drop_last() + tasks }, SpecEvent::Paused)
}

/// The machine `m` stopped by the error `e`: no task is left.
pub open spec fn stops(m: SpecMachine, e: SpecEvalError) -> (SpecMachine, SpecEvent) {
    (SpecMachine { env: m.env, tasks: Seq::empty() }, SpecEvent::Failed(e))
}

/// One step of a machine: the machine after it, and what the step tells.
///
/// A step takes the next task. A block puts its statements in place of itself, the first one
/// next. A conditional whose predicate is `true` puts its body there, a loop its body and then
/// itself. An assignment changes the environment and a `print` tells its line. An error takes
/// every task away.
pub open spec fn step(m: SpecMachine) -> (SpecMachine, SpecEvent) {
    if m.tasks.len() == 0 {
        (m, SpecEvent::Finished)
    } else {
        match m.tasks.last() {
            SpecTask::Rest(items) => {
                if items.len() == 0 {
                    goes_on(m, m.env, Seq::empty())
                } else {
                    goes_on(
                        m,
                        m.env,
                        seq![SpecTask::Rest(items.drop_first()), SpecTask::Run(items[0])],
                    )
                }
            },
            SpecTask::Run(SpecStatement::Block(items)) => goes_on(
                m,
                m.env,
                seq![SpecTask::Rest(items)],
            ),
            SpecTask::Run(SpecStatement::Assignment(name, value, _)) => match expr_value(
                m.env,
                value,
            ) {
                Err(e) => stops(m, e),
                Ok(v) => goes_on(m, m.env.insert(name, v), Seq::empty()),
            },
            SpecTask::Run(SpecStatement::Print(value)) => match expr_value(m.env, value) {
                Err(e) => stops(m, e),
                Ok(v) => (
                    SpecMachine { env: m.env, tasks: m.tasks.drop_last() },
                    SpecEvent::Printed(value_text(v)),
                ),
            },
            SpecTask::Run(SpecStatement::If(predicate, body)) => match expr_value(
                m.env,
                predicate,
            ) {
                Err(e) => stops(m, e),
                Ok(v) => {
                    if v == SpecValue::Boolean(true) {
                        goes_on(m, m.env, seq![SpecTask::Run(*body)])
                    } else {
                        goes_on(m, m.env, Seq::empty())
                    }
                },
            },
            SpecTask::Run(SpecStatement::While(predicate, body)) => match expr_value(
                m.env,
                predicate,
            ) {
                Err(e) => stops(m, e),
                Ok(v) => {
                    if v == SpecValue::Boolean(true) {
                        goes_on(m, m.env, seq![m.tasks.last(), SpecTask::Run(*body)])
                    } else {
                        goes_on(m, m.env, Seq::empty())
                    }
                },
            },
        }
    }
}

/// Steps of a machine up to the first one that tells something, and at most `budget` of them.
pub open spec fn advance(m: SpecMachine, budget: nat) -> (SpecMachine, SpecEvent)
    decreases budget,
{
    if budget == 0 {
        (m, SpecEvent::Paused)
    } else {
        let (next, event) = step(m);
        if event is Paused {
            advance(next, (budget - 1) as nat)
        } else {
            (next, event)
        }
    }
}

/// A program on its way: the environment, and what is left to do. It runs step by step, so
/// that its caller can write each line as it is printed, and needs no bound on its loops.
pub struct Machine<'a> {
    env: Environment,
    tasks: Vec<Task<'a>>,
}

impl<'a> View for Machine<'a> {
    type V = SpecMachine;

    closed spec fn view(&self) -> SpecMachine {
        SpecMachine { env: self.env@, tasks: self.tasks.deep_view() }
    }
}

impl<'a> Machine<'a> {
    /// The machine that is about to run `program` from the empty environment.
    pub fn new(program: &'a Vec<Statement>) -> (m: Self)
        ensures
            m@ == start(program.deep_view()),
    {
        let mut tasks: Vec<Task<'a>> = Vec::new();
        tasks.push(Task::Rest(program, 0));
        let m = Machine { env: Environment::new(), tasks };
        proof {
            assert(program.deep_view().skip(0) =~= program.deep_view());
            assert(m.tasks.deep_view() =~= seq![SpecTask::Rest(program.deep_view())]);
        }
        m
    }

    /// The environment as it stands.
    pub fn environment(&self) -> (env: &Environment)
        ensures
            env@ == self@.env,
    {
        &self.env
    }

    /// Whether nothing is left to do.
    pub fn is_finished(&self) -> (r: bool)
        ensures
            r == (self@.tasks.len() == 0),
    {
        self.tasks.len() == 0
    }

    fn stop(&mut self, e: EvalError) -> (event: Event)
        ensures
            final(self)@ == (SpecMachine { env: old(self)@.env, tasks: Seq::empty() }),
            event.deep_view() == SpecEvent::Failed(e.deep_view()),
    {
        self.tasks = Vec::new();
        assert(self.tasks.deep_view() =~= Seq::<SpecTask>::empty());
        Event::Failed(e)
    }

    fn put(&mut self, task: Task<'a>)
        ensures
            final(self)@ == (SpecMachine {
                env: old(self)@.env,
                tasks: old(self)@.tasks.push(task.deep_view()),
            }),
    {
        self.tasks.push(task);
        assert(self.tasks.deep_view() =~= old(self).tasks.deep_view().push(task.deep_view()));
    }

    fn take(&mut self) -> (task: Option<Task<'a>>)
        ensures
            match task {
                None => old(self)@.tasks.len() == 0 && final(self)@ == old(self)@,
                Some(t) => old(self)@.tasks.len() > 0 && t.deep_view() == old(self)@.tasks.last()
                    && final(self)@ == (SpecMachine {
                    env: old(self)@.env,
                    tasks: old(self)@.tasks.drop_last(),
                }),
            },
    {
        let task = self.tasks.pop();
        assert(self.tasks.deep_view() =~= old(self).tasks.deep_view().drop_last()
            || old(self).tasks.len() == 0);
        task
    }

    /// Takes one step.
    pub fn step(&mut self) -> (event: Event)
        ensures
            (final(self)@, event.deep_view()) == step(old(self)@),
    {
        let ghost before = self@;
        let ghost rest = before.tasks.drop_last();
        match self.take() {
            None => Event::Finished,
            Some(Task::Rest(items, from)) => {
                if from < items.len() {
                    self.put(Task::Rest(items, from + 1));
                    self.put(Task::Run(&items[from]));
                    proof {
                        let left = items.deep_view().skip(from as int);
                        assert(left.drop_first() =~= items.deep_view().skip(from + 1));
                        assert(left[0] == items[from as int].deep_view());
                        assert(rest.push(SpecTask::Rest(left.drop_first())).push(
                            SpecTask::Run(left[0]),
                        ) =~= rest + seq![SpecTask::Rest(left.drop_first()), SpecTask::Run(left[0])]);
                    }
                } else {
                    assert(rest + Seq::<SpecTask>::empty() =~= rest);
                }
                Event::Paused
            },
            Some(Task::Run(statement)) => match statement {
                Statement::Block(items) => {
                    self.put(Task::Rest(items, 0));
                    proof {
                        lemma_block_view(*items);
                        assert(items.deep_view().skip(0) =~= items.deep_view());
                        assert(rest.push(SpecTask::Rest(items.deep_view())) =~= rest + seq![
                            SpecTask::Rest(items.deep_view()),
                        ]);
                    }
                    Event::Paused
                },
                Statement::Assignment(name, value, _) => match eval_expr(&self.env, value) {
                    Err(e) => self.stop(e),
                    Ok(v) => {
                        self.env.insert(name.clone(), v);
                        assert(rest + Seq::<SpecTask>::empty() =~= rest);
                        Event::Paused
                    },
                },
                Statement::Print(value) => match eval_expr(&self.env, value) {
                    Err(e) => self.stop(e),
                    Ok(v) => Event::Printed(text_of(&v)),
                },
                Statement::If(predicate, body) => match eval_expr(&self.env, predicate) {
                    Err(e) => self.stop(e),
                    Ok(v) => {
                        if is_true(&v) {
                            self.put(Task::Run(body));
                            assert(rest.push(SpecTask::Run(body.deep_view())) =~= rest + seq![
                                SpecTask::Run(body.deep_view()),
                            ]);
                        } else {
                            assert(rest + Seq::<SpecTask>::empty() =~= rest);
                        }
                        Event::Paused
                    },
                },
                Statement::While(predicate, body) => match eval_expr(&self.env, predicate) {
                    Err(e) => self.stop(e),
                    Ok(v) => {
                        if is_true(&v) {
                            self.put(Task::Run(statement));
                            self.put(Task::Run(body));
                            assert(rest.push(SpecTask::Run(statement.deep_view())).push(
                                SpecTask::Run(body.deep_view()),
                            ) =~= rest + seq![
                                SpecTask::Run(statement.deep_view()),
                                SpecTask::Run(body.deep_view()),
                            ]);
                        } else {
                            assert(rest + Seq::<SpecTask>::empty() =~= rest);
                        }
                        Event::Paused
                    },
                },
            },
        }
    }

    /// Takes steps up to the first one that tells something, and at most `budget` of them.
    /// `Paused` says that the budget is used up: the next call goes on from there.
    pub fn advance(&mut self, budget: u64) -> (event: Event)
        ensures
            (final(self)@, event.deep_view()) == advance(old(self)@, budget as nat),
    {
        let mut left: u64 = budget;
        while left > 0
            invariant
                advance(old(self)@, budget as nat) == advance(self@, left as nat),
            decreases left,
        {
            let event = self.step();
            match event {
                Event::Paused => {},
                told => {
                    return told;
                },
            }
            left = left - 1;
        }
        Event::Paused
    }
}

/// What a machine did in a number of steps: the lines that it printed, the machine that it
/// became, and the error that stopped it, if one did.
pub struct Trace {
    pub printed: Seq<Seq<char>>,
    pub machine: SpecMachine,
    pub error: Option<SpecEvalError>,
}

/// The lines that an event tells of.
pub open spec fn told(event: SpecEvent) -> Seq<Seq<char>> {
    match event {
        SpecEvent::Printed(line) => seq![line],
        _ => Seq::empty(),
    }
}

/// What the machine `m` does in `n` steps, or in fewer if an error stops it.
pub open spec fn steps(m: SpecMachine, n: nat) -> Trace
    decreases n,
{
    if n == 0 {
        Trace { printed: Seq::empty(), machine: m, error: None }
    } else {
        let (next, event) = step(m);
        match event {
            SpecEvent::Failed(e) => Trace { printed: Seq::empty(), machine: next, error: Some(e) },
            _ => {
                let rest = steps(next, (n - 1) as nat);
                Trace {
                    printed: told(event) + rest.printed,
                    machine: rest.machine,
                    error: rest.error,
                }
            },
        }
    }
}

/// What a machine has done after `t` and `n` more steps.
pub open spec fn then_steps(t: Trace, n: nat) -> Trace {
    if t.error is Some {
        t
    } else {
        let more = steps(t.machine, n);
        Trace { printed: t.printed + more.printed, machine: more.machine, error: more.error }
    }
}

/// Whether the trace `t` is the effect `effect` on a machine that had `rest` to do after it:
/// the same lines, and the same environment with `rest` left, or the same error.
pub open spec fn does(t: Trace, effect: Effect, rest: Seq<SpecTask>) -> bool {
    &&& t.printed == effect.printed
    &&& match effect.result {
        Ok(env) => t.error is None && t.machine == (SpecMachine { env, tasks: rest }),
        Err(e) => t.error == Some(e),
    }
}

/// Steps add up.
pub proof fn lemma_steps_add(m: SpecMachine, a: nat, b: nat)
    ensures
        steps(m, a + b) == then_steps(steps(m, a), b),
    decreases a,
{
    if a == 0 {
        assert(Seq::<Seq<char>>::empty() + steps(m, b).printed =~= steps(m, b).printed);
    } else {
        let (next, event) = step(m);
        if !(event is Failed) {
            lemma_steps_add(next, (a - 1) as nat, b);
            let first = steps(next, (a - 1) as nat);
            if first.error is None {
                let more = steps(first.machine, b);
                assert(told(event) + (first.printed + more.printed) =~= (told(event)
                    + first.printed) + more.printed);
            }
        }
    }
}

/// A step that tells nothing is one step of the run and leaves its trace as it is.
pub proof fn lemma_silent_step(m: SpecMachine, n: nat)
    requires
        step(m).1 is Paused,
    ensures
        steps(m, n + 1) == steps(step(m).0, n),
{
    assert(Seq::<Seq<char>>::empty() + steps(step(m).0, n).printed =~= steps(step(m).0, n).printed);
}

/// The machine takes a statement through the steps that the meaning of the statement asks
/// for: if running `statement` in `env` does not run out of fuel, a machine with that
/// statement next and `rest` after it comes, in the `n` steps returned, to print the same
/// lines and to stand in the same environment with `rest` left, or to stop on the same error.
pub proof fn lemma_statement_steps(
    statement: SpecStatement,
    env: Map<Seq<char>, SpecValue>,
    fuel: nat,
    rest: Seq<SpecTask>,
) -> (n: nat)
    requires
        run_statement(statement, env, fuel).result != Err::<
            Map<Seq<char>, SpecValue>,
            SpecEvalError,
        >(SpecEvalError::OutOfFuel),
    ensures
        does(
            steps(SpecMachine { env, tasks: rest.push(SpecTask::Run(statement)) }, n),
            run_statement(statement, env, fuel),
            rest,
        ),
    decreases fuel, statement,
{
    let m = SpecMachine { env, tasks: rest.push(SpecTask::Run(statement)) };
    let next = step(m).0;
    assert(m.tasks.drop_last() =~= rest);
    assert(m.tasks.last() == SpecTask::Run(statement));
    assert(rest + Seq::<SpecTask>::empty() =~= rest);
    reveal_with_fuel(steps, 2);
    match statement {
        SpecStatement::Assignment(name, value, _) => {
            if expr_value(env, value) is Ok {
                lemma_silent_step(m, 0);
            }
            1
        },
        SpecStatement::Print(value) => {
            if let Ok(v) = expr_value(env, value) {
                assert(seq![value_text(v)] + Seq::<Seq<char>>::empty() =~= seq![value_text(v)]);
            }
            1
        },
        SpecStatement::If(predicate, body) => {
            if expr_value(env, predicate) == Ok::<SpecValue, SpecEvalError>(
                SpecValue::Boolean(true),
            ) {
                assert(next.tasks =~= rest.push(SpecTask::Run(*body)));
                let k = lemma_statement_steps(*body, env, fuel, rest);
                lemma_silent_step(m, k);
                k + 1
            } else {
                if expr_value(env, predicate) is Ok {
                    lemma_silent_step(m, 0);
                }
                1
            }
        },
        SpecStatement::While(predicate, body) => {
            if expr_value(env, predicate) == Ok::<SpecValue, SpecEvalError>(
                SpecValue::Boolean(true),
            ) {
                let again = rest.push(SpecTask::Run(statement));
                assert(next.tasks =~= again.push(SpecTask::Run(*body)));
                let first = run_statement(*body, env, (fuel - 1) as nat);
                let k = lemma_statement_steps(*body, env, (fuel - 1) as nat, again);
                match first.result {
                    Err(_) => {
                        lemma_silent_step(m, k);
                        k + 1
                    },
                    Ok(after_body) => {
                        let j = lemma_statement_steps(
                            statement,
                            after_body,
                            (fuel - 1) as nat,
                            rest,
                        );
                        lemma_steps_add(next, k, j);
                        lemma_silent_step(m, k + j);
                        k + j + 1
                    },
                }
            } else {
                if expr_value(env, predicate) is Ok {
                    lemma_silent_step(m, 0);
                }
                1
            }
        },
        SpecStatement::Block(items) => {
            assert(next.tasks =~= rest.push(SpecTask::Rest(items)));
            let k = lemma_items_steps(items, env, fuel, rest);
            lemma_silent_step(m, k);
            k + 1
        },
    }
}

/// The machine takes the statements of a block through the steps that their meaning asks for.
pub proof fn lemma_items_steps(
    items: Seq<SpecStatement>,
    env: Map<Seq<char>, SpecValue>,
    fuel: nat,
    rest: Seq<SpecTask>,
) -> (n: nat)
    requires
        run_items(items, env, fuel).result != Err::<Map<Seq<char>, SpecValue>, SpecEvalError>(
            SpecEvalError::OutOfFuel,
        ),
    ensures
        does(
            steps(SpecMachine { env, tasks: rest.push(SpecTask::Rest(items)) }, n),
            run_items(items, env, fuel),
            rest,
        ),
    decreases fuel, items,
{
    let m = SpecMachine { env, tasks: rest.push(SpecTask::Rest(items)) };
    let next = step(m).0;
    assert(m.tasks.drop_last() =~= rest);
    assert(m.tasks.last() == SpecTask::Rest(items));
    assert(rest + Seq::<SpecTask>::empty() =~= rest);
    reveal_with_fuel(steps, 2);
    if items.len() == 0 {
        lemma_silent_step(m, 0);
        1
    } else {
        let later = rest.push(SpecTask::Rest(items.drop_first()));
        assert(next.tasks =~= later.push(SpecTask::Run(items[0])));
        let first = run_statement(items[0], env, fuel);
        let k = lemma_statement_steps(items[0], env, fuel, later);
        match first.result {
            Err(_) => {
                lemma_silent_step(m, k);
                k + 1
            },
            Ok(after_first) => {
                let j = lemma_items_steps(items.drop_first(), after_first, fuel, rest);
                lemma_steps_add(next, k, j);
                lemma_silent_step(m, k + j);
                k + j + 1
            },
        }
    }
}

/// The machine runs a program as the meaning of the program says: if running `program` does
/// not run out of fuel, the machine started on it comes, in the `n` steps returned, to print
/// the same lines and to end in the same environment with nothing left to do, or to stop on
/// the same error.
pub proof fn lemma_machine_runs_program(program: Seq<SpecStatement>, fuel: nat) -> (n: nat)
    requires
        run_program(program, fuel).result != Err::<Map<Seq<char>, SpecValue>, SpecEvalError>(
            SpecEvalError::OutOfFuel,
        ),
    ensures
        does(steps(start(program), n), run_program(program, fuel), Seq::empty()),
{
    assert(start(program).tasks =~= Seq::<SpecTask>::empty().push(SpecTask::Rest(program)));
    lemma_items_steps(program, Map::empty(), fuel, Seq::empty())
}

/// What `advance` does is what the machine does in the `n` steps returned, which are no more
/// than the budget: it tells the one line that those steps print, or the error that ends them.
pub proof fn lemma_advance_steps(m: SpecMachine, budget: nat) -> (n: nat)
    ensures
        n <= budget,
        steps(m, n) == (Trace {
            printed: told(advance(m, budget).1),
            machine: advance(m, budget).0,
            error: match advance(m, budget).1 {
                SpecEvent::Failed(e) => Some(e),
                _ => None,
            },
        }),
    decreases budget,
{
    reveal_with_fuel(steps, 2);
    if budget == 0 {
        0
    } else {
        let (next, event) = step(m);
        match event {
            SpecEvent::Paused => {
                let k = lemma_advance_steps(next, (budget - 1) as nat);
                lemma_silent_step(m, k);
                k + 1
            },
            SpecEvent::Printed(line) => {
                assert(seq![line] + Seq::<Seq<char>>::empty() =~= seq![line]);
                1
            },
            SpecEvent::Finished => {
                assert(told(event) + Seq::<Seq<char>>::empty() =~= told(event));
                1
            },
            SpecEvent::Failed(_) => 1,
        }
    }
}

} // verus!
