//! What a build asks for, whatever it is answered.

use vstd::prelude::*;

use crate::assembly::{begun, sealed, Answer, Ask, Phase, State};
use crate::compile::{
    compile_plan, law_input, law_output, law_python_inputs, python_plan, PartView, Plan,
};
use crate::problem::{problem_data, problem_filename};
use crate::text::has_extension;
use crate::zip_writer::{method_of, METHOD_DEFLATED};

verus! {

/// The state of a build and its request after some answers, of any kind.
pub open spec fn after(plan: Plan, answers: Seq<Answer>) -> (State, Ask)
    decreases answers.len(),
{
    if answers.len() == 0 {
        begun(plan)
    } else {
        after(plan, answers.drop_last()).0.answered(answers.last())
    }
}

/// Whether a request is one of those that come once the output is there.
spec fn is_late(plan: Plan, ask: Ask) -> bool {
    match ask {
        Ask::ReadFile(path) => plan.parts.contains(PartView::InputFile(path)),
        Ask::ReadStdin => true,
        Ask::DeflateXml(_) => true,
        Ask::DeflateFile(_) => true,
        Ask::Finished(_) => true,
        Ask::Failed(_) => true,
        _ => false,
    }
}

/// Whether a build is past the creation of its output, or over.
spec fn is_late_phase(phase: Phase) -> bool {
    match phase {
        Phase::Loading => false,
        Phase::Checking(_) => false,
        Phase::Creating => false,
        Phase::Ready => false,
        _ => true,
    }
}

/// A build that adds a file asks for nothing but late things.
proof fn lemma_pack_late(state: State, name: Seq<char>, data: Seq<u8>)
    requires
        state.phase is Ready,
        state.part < state.plan.parts.len(),
    ensures
        ({
            let (next, ask) = state.pack(name, data);
            &&& next.plan == state.plan
            &&& next.consistent()
            &&& is_late_phase(next.phase)
            &&& is_late(state.plan, ask)
        }),
    decreases state.plan.parts.len() - state.part, 0int,
{
    if method_of(name) != METHOD_DEFLATED {
        lemma_advance_late(state.with_member(name, data, Seq::empty(), 0));
    }
}

/// A build that goes on asks for nothing but late things.
proof fn lemma_advance_late(state: State)
    requires
        state.phase is Ready,
        state.part <= state.plan.parts.len(),
    ensures
        ({
            let (next, ask) = state.advance();
            &&& next.plan == state.plan
            &&& next.consistent()
            &&& is_late_phase(next.phase)
            &&& is_late(state.plan, ask)
        }),
    decreases state.plan.parts.len() - state.part, 1int,
{
    if state.part < state.plan.parts.len() {
        let part = state.plan.parts[state.part as int];
        assert(state.plan.parts.contains(part));
        match part {
            PartView::DefaultDocument => lemma_pack_late(
                state,
                "Document.xml"@,
                crate::templates::default_document(),
            ),
            _ => {},
        }
    }
}

/// Whether an answer is that something was read.
pub open spec fn has_contents(answer: Answer) -> bool {
    match answer {
        Answer::Contents(Some(_)) => true,
        _ => false,
    }
}

/// Whether the answers so far are those that a build has had when it checks file
/// `i`: those files exist that it asked for.
spec fn checked_so_far(plan: Plan, answers: Seq<Answer>, i: nat) -> bool {
    let first: int = if plan.load is Some {
        1
    } else {
        0
    };
    &&& answers.len() == first + i
    &&& plan.load is Some ==> has_contents(answers[0])
    &&& forall|j: int| first <= j < answers.len() ==> #[trigger] answers[j] == Answer::Exists(true)
}

/// What holds of a build after any answers.
spec fn on_course(plan: Plan, answers: Seq<Answer>, state: State, ask: Ask) -> bool {
    &&& state.plan.output == plan.output
    &&& state.plan.must_exist == plan.must_exist
    &&& state.consistent()
    &&& forall|path: Seq<char>|
        #[trigger] state.plan.parts.contains(PartView::InputFile(path)) ==> plan.parts.contains(
            PartView::InputFile(path),
        )
    &&& match state.phase {
        Phase::Loading => answers.len() == 0 && plan.load is Some && ask == Ask::LoadText(
            plan.load->0,
        ) && state.plan == plan && state.part == 0,
        Phase::Checking(i) => checked_so_far(plan, answers, i) && ask == Ask::CheckExists(
            plan.must_exist[i as int],
        ) && state.part == 0,
        Phase::Creating => checked_so_far(plan, answers, plan.must_exist.len()) && ask
            == Ask::CreateOutput(plan.output) && state.part == 0,
        Phase::Ready => false,
        _ => is_late(plan, ask),
    }
}

/// The invariant holds of a build that checks from file `i` on.
proof fn lemma_check_keeps(plan: Plan, answers: Seq<Answer>, state: State, i: nat)
    requires
        i <= plan.must_exist.len(),
        state.plan.output == plan.output,
        state.plan.must_exist == plan.must_exist,
        state.part == 0,
        forall|path: Seq<char>|
            #[trigger] state.plan.parts.contains(PartView::InputFile(path)) ==> plan.parts.contains(
                PartView::InputFile(path),
            ),
        checked_so_far(plan, answers, i),
    ensures
        on_course(plan, answers, state.check_from(i).0, state.check_from(i).1),
{
}

/// A request that comes late in the plan of a state does so in the plan that it
/// started from.
proof fn lemma_late(plan: Plan, state: State, ask: Ask)
    requires
        is_late(state.plan, ask),
        forall|path: Seq<char>|
            #[trigger] state.plan.parts.contains(PartView::InputFile(path)) ==> plan.parts.contains(
                PartView::InputFile(path),
            ),
    ensures
        is_late(plan, ask),
{
}

/// An answer to an early request keeps the invariant.
proof fn lemma_early_keeps(
    plan: Plan,
    answers: Seq<Answer>,
    state: State,
    ask: Ask,
    answer: Answer,
)
    requires
        on_course(plan, answers, state, ask),
        state.phase is Loading || state.phase is Checking,
    ensures
        on_course(plan, answers.push(answer), state.answered(answer).0, state.answered(answer).1),
{
    let ready = state.in_phase(Phase::Ready);
    let more = answers.push(answer);
    match (state.phase, answer) {
        (Phase::Loading, Answer::Contents(Some(xml))) => {
            let loaded = ready.with_problem(xml);
            assert forall|path: Seq<char>| #[trigger]
                loaded.plan.parts.contains(PartView::InputFile(path)) implies plan.parts.contains(
                PartView::InputFile(path),
            ) by {
                let i = choose|i: int|
                    0 <= i < loaded.plan.parts.len() && loaded.plan.parts[i] == PartView::InputFile(
                        path,
                    );
                assert(plan.parts[i] == PartView::InputFile(path));
            }
            lemma_check_keeps(plan, more, loaded, 0);
        },
        (Phase::Checking(i), Answer::Exists(true)) => {
            assert forall|j: int|
                (if plan.load is Some {
                    1int
                } else {
                    0
                }) <= j < more.len() implies #[trigger] more[j] == Answer::Exists(true) by {
                if j < answers.len() {
                    assert(answers[j] == Answer::Exists(true));
                }
            }
            lemma_check_keeps(plan, more, ready, i + 1);
        },
        _ => {},
    }
}

/// An answer to a later request leads to late requests.
proof fn lemma_late_answer(state: State, answer: Answer)
    requires
        state.consistent(),
        state.phase is Creating || is_late_phase(state.phase),
    ensures
        ({
            let (next, ask) = state.answered(answer);
            &&& next.plan == state.plan
            &&& next.consistent()
            &&& is_late_phase(next.phase)
            &&& is_late(state.plan, ask)
        }),
{
    let ready = state.in_phase(Phase::Ready);
    match (state.phase, answer) {
        (Phase::Creating, Answer::Created) => lemma_advance_late(ready),
        (Phase::Reading, Answer::Contents(contents)) => {
            let path = state.current_path();
            if let Some(c) = contents {
                if let Some(data) = problem_data(path, c) {
                    let name = problem_filename(path);
                    if !has_extension(name, ".xml"@) {
                        lemma_pack_late(ready, name, data);
                    }
                }
            }
        },
        (Phase::Sealing(name), Answer::Compressed(deflated, _)) => {
            lemma_pack_late(ready, name, sealed(deflated));
        },
        (Phase::Packing(name, data), Answer::Compressed(deflated, data_type)) => {
            lemma_advance_late(ready.with_member(name, data, deflated, data_type));
        },
        _ => {},
    }
}

/// One more answer keeps the invariant.
proof fn lemma_answer_keeps(
    plan: Plan,
    answers: Seq<Answer>,
    state: State,
    ask: Ask,
    answer: Answer,
)
    requires
        on_course(plan, answers, state, ask),
    ensures
        on_course(plan, answers.push(answer), state.answered(answer).0, state.answered(answer).1),
{
    if state.phase is Loading || state.phase is Checking {
        lemma_early_keeps(plan, answers, state, ask, answer);
    } else {
        lemma_late_answer(state, answer);
        lemma_late(plan, state, state.answered(answer).1);
    }
}

/// The invariant holds after any answers.
proof fn lemma_on_course(plan: Plan, answers: Seq<Answer>)
    ensures
        on_course(plan, answers, after(plan, answers).0, after(plan, answers).1),
    decreases answers.len(),
{
    if answers.len() == 0 {
        let state = State { plan, part: 0, phase: Phase::Ready, members: Seq::empty() };
        if plan.load is None {
            lemma_check_keeps(plan, answers, state, 0);
        }
    } else {
        let before = answers.drop_last();
        lemma_on_course(plan, before);
        let (state, ask) = after(plan, before);
        lemma_answer_keeps(plan, before, state, ask, answers.last());
        assert(before.push(answers.last()) =~= answers);
    }
}

/// Whatever it is answered, a build creates no file but its output, and reads and
/// looks for none but those of its plan.
pub proof fn law_requests(plan: Plan, answers: Seq<Answer>)
    ensures
        match after(plan, answers).1 {
            Ask::CreateOutput(path) => path == plan.output,
            Ask::LoadText(path) => plan.load == Some(path),
            Ask::CheckExists(path) => plan.must_exist.contains(path),
            Ask::ReadFile(path) => plan.parts.contains(PartView::InputFile(path)),
            _ => true,
        },
{
    lemma_on_course(plan, answers);
}

/// A build creates its output exactly when all files that it looks for were found
/// to exist, one after the other, and not earlier, later or again.
pub proof fn law_output_created(plan: Plan, answers: Seq<Answer>)
    ensures
        after(plan, answers).1 is CreateOutput <==> {
            let first: int = if plan.load is Some {
                1
            } else {
                0
            };
            &&& answers.len() == first + plan.must_exist.len()
            &&& plan.load is Some ==> has_contents(answers[0])
            &&& forall|j: int|
                first <= j < answers.len() ==> #[trigger] answers[j] == Answer::Exists(true)
        },
{
    lemma_on_course(plan, answers);
    if checked_so_far(plan, answers, plan.must_exist.len()) {
        lemma_reached(plan, answers, plan.must_exist.len());
    }
}

/// With the right answers, a build gets to file `i`.
proof fn lemma_reached(plan: Plan, answers: Seq<Answer>, i: nat)
    requires
        i <= plan.must_exist.len(),
        checked_so_far(plan, answers, i),
    ensures
        i < plan.must_exist.len() ==> after(plan, answers).0.phase == Phase::Checking(i),
        i == plan.must_exist.len() ==> after(plan, answers).0.phase is Creating,
    decreases answers.len(),
{
    lemma_on_course(plan, answers);
    if answers.len() > 0 {
        let before = answers.drop_last();
        lemma_on_course(plan, before);
        if i > 0 {
            assert forall|j: int|
                (if plan.load is Some {
                    1int
                } else {
                    0
                }) <= j < before.len() implies #[trigger] before[j] == Answer::Exists(true) by {
                assert(answers[j] == Answer::Exists(true));
            }
            lemma_reached(plan, before, (i - 1) as nat);
            assert(answers.last() == Answer::Exists(true));
        } else {
            assert(before =~= Seq::empty());
            assert(answers.last() == answers[0]);
        }
    }
}

/// Compiling a source of any kind creates the output path and no other file, and
/// reads the input path and no other, whatever the host answers.
pub proof fn law_compile_requests(
    source_type: Seq<char>,
    input: Seq<char>,
    output: Seq<char>,
    answers: Seq<Answer>,
)
    ensures
        compile_plan(source_type, input, output) matches Ok(plan) ==> match after(plan, answers).1 {
            Ask::CreateOutput(path) => path == output,
            Ask::LoadText(path) => path == input,
            Ask::CheckExists(path) => path == input,
            Ask::ReadFile(path) => path == input,
            _ => true,
        },
{
    if let Ok(plan) = compile_plan(source_type, input, output) {
        law_requests(plan, answers);
        law_output(source_type, input, seq![input], Seq::empty(), output);
        match after(plan, answers).1 {
            Ask::LoadText(path) => law_input(source_type, input, output, path),
            Ask::CheckExists(path) => law_input(source_type, input, output, path),
            Ask::ReadFile(path) => law_input(source_type, input, output, path),
            _ => {},
        }
    }
}

/// Compiling Python scripts creates the output path and no other file, and reads
/// the scripts and no other file, whatever the host answers.
pub proof fn law_python_requests(
    inputs: Seq<Seq<char>>,
    output: Seq<char>,
    answers: Seq<Answer>,
)
    ensures
        match after(python_plan(inputs, output), answers).1 {
            Ask::CreateOutput(path) => path == output,
            Ask::LoadText(_) => false,
            Ask::CheckExists(path) => inputs.contains(path),
            Ask::ReadFile(path) => inputs.contains(path),
            _ => true,
        },
{
    let plan = python_plan(inputs, output);
    law_requests(plan, answers);
    match after(plan, answers).1 {
        Ask::CheckExists(path) => law_python_inputs(inputs, output, path),
        Ask::ReadFile(path) => law_python_inputs(inputs, output, path),
        _ => {},
    }
}

} // verus!
