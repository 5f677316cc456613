//! What a build comes to: the document that a host gets that answers every
//! request from the same files.

use vstd::prelude::*;
use vstd::utf8::*;

use crate::assembly::{begun, sealed, Answer, Ask, Phase, State};
use crate::bytes::occurs_at;
use crate::cdata::{cdata_safe, read_cdata};
use crate::compile::{
    lua_plan, notes_file_plan, notes_xml, notes_xml_plan, python_plan, tiversion_for, Failure,
    PartView, Plan, MAX_PYTHON_NAME, TIVERSION,
};
use crate::doccrypt::{crypted, law_crypt_round_trip};
use crate::notes::{breaks_out, law_note_problem, note_back, note_front};
use crate::problem::{
    is_lua, is_xml, law_dash_is_lua, law_lua_path, law_lua_round_trip, law_other_path,
    law_xml_path, lua_problem, problem_data, problem_filename, python_problem, xml_problem,
};
use crate::readback::{
    archive_representable, law_read_back, law_version_header, read_archive, stored, stored_all,
};
use crate::templates::{
    default_document, lemma_lengths, lua_footer, lua_header, python_footer, python_header,
    tien_header, xml_header,
};
use crate::text::{
    basename, ends_in_letters, has_ascii_tail, has_extension, is_bitmap, law_ascii_ends_with,
    law_ascii_extension, law_basename_extension, law_basename_letters, law_basename_splits,
    law_bitmap_letters, law_extension_letters, law_lowercase_letters, lemma_ascii_lowercase,
    lemma_other_extension, lowercase,
};
use crate::unicode::escaped_chars;
use crate::zip_writer::{
    archive_of, crc32, hex_padded, image_of, lemma_open_header_len, lemma_size_fields_len,
    local_record, member_of, method_of, Member, METHOD_DEFLATED, METHOD_ENCRYPTED,
};

verus! {

/// The files that a host has, and what its compressor does.
pub struct World {
    /// The text of a text file.
    pub text: spec_fn(Seq<char>) -> Seq<u8>,
    /// Whether a file exists.
    pub exists: spec_fn(Seq<char>) -> bool,
    /// What reading a file gives, if it can be read.
    pub contents: spec_fn(Seq<char>) -> Option<Seq<u8>>,
    /// What reading standard input gives, if it can be read.
    pub stdin: Option<Seq<u8>>,
    /// What a problem is compressed to.
    pub deflate_xml: spec_fn(Seq<u8>) -> Seq<u8>,
    /// What a file is compressed to, and the kind of data that was found.
    pub deflate_file: spec_fn(Seq<u8>) -> (Seq<u8>, i32),
}

impl World {
    /// The host's answer to a request.
    pub open spec fn answer(self, ask: Ask) -> Answer {
        match ask {
            Ask::LoadText(path) => Answer::Contents(Some((self.text)(path))),
            Ask::CheckExists(path) => Answer::Exists((self.exists)(path)),
            Ask::CreateOutput(_) => Answer::Created,
            Ask::ReadFile(path) => Answer::Contents((self.contents)(path)),
            Ask::ReadStdin => Answer::Contents(self.stdin),
            Ask::DeflateXml(data) => Answer::Compressed((self.deflate_xml)(data), 0),
            Ask::DeflateFile(data) => Answer::Compressed(
                (self.deflate_file)(data).0,
                (self.deflate_file)(data).1,
            ),
            _ => Answer::Created,
        }
    }

    /// What reading the input file at `path` gives.
    pub open spec fn input(self, path: Seq<char>) -> Option<Seq<u8>> {
        if path == "-"@ {
            self.stdin
        } else {
            (self.contents)(path)
        }
    }

    /// What a compressed and encrypted problem is.
    pub open spec fn seal(self, xmlc: Seq<u8>) -> Seq<u8> {
        sealed((self.deflate_xml)(xmlc))
    }

    /// The member that a file becomes.
    pub open spec fn member(self, name: Seq<char>, data: Seq<u8>, tiversion: u32) -> Member {
        if method_of(name) == METHOD_DEFLATED {
            member_of(
                name,
                data,
                tiversion,
                (self.deflate_file)(data).0,
                (self.deflate_file)(data).1,
            )
        } else {
            member_of(name, data, tiversion, Seq::empty(), 0)
        }
    }

    /// The file in the document that a part becomes.
    pub open spec fn file_of(self, part: PartView) -> Result<(Seq<char>, Seq<u8>), Failure> {
        match part {
            PartView::DefaultDocument => Ok(("Document.xml"@, default_document())),
            PartView::PythonProblem(path) => {
                let name = encode_utf8(basename(path));
                if name.len() > MAX_PYTHON_NAME {
                    Err(Failure::FilenameTooLong)
                } else {
                    Ok(("Problem1.xml"@, self.seal(python_problem(name))))
                }
            },
            PartView::InputFile(path) => match self.input(path) {
                Some(contents) => match problem_data(path, contents) {
                    Some(data) => {
                        let name = problem_filename(path);
                        Ok(
                            (
                                name,
                                if has_extension(name, ".xml"@) {
                                    self.seal(data)
                                } else {
                                    data
                                },
                            ),
                        )
                    },
                    None => Err(Failure::Unreadable),
                },
                None => Err(Failure::Unreadable),
            },
            PartView::XmlProblem(xml) => match xml_problem(xml) {
                Some(xmlc) => Ok(("Problem1.xml"@, self.seal(xmlc))),
                None => Err(Failure::BadXml),
            },
        }
    }

    /// What comes of the parts from number `k` on, behind `members`.
    pub open spec fn document(self, plan: Plan, k: nat, members: Seq<Member>) -> Ask
        decreases plan.parts.len() - k,
    {
        if k >= plan.parts.len() {
            Ask::Finished(archive_of(0, members))
        } else {
            match self.file_of(plan.parts[k as int]) {
                Ok((name, data)) => self.document(
                    plan,
                    k + 1,
                    members.push(self.member(name, data, plan.tiversion)),
                ),
                Err(failure) => Ask::Failed(failure),
            }
        }
    }

    /// What comes of a plan whose files are checked from number `i` on.
    pub open spec fn checked(self, plan: Plan, i: nat) -> Ask
        decreases plan.must_exist.len() - i,
    {
        if i >= plan.must_exist.len() {
            self.document(plan, 0, Seq::empty())
        } else if (self.exists)(plan.must_exist[i as int]) {
            self.checked(plan, i + 1)
        } else {
            Ask::Failed(Failure::NotFound(plan.must_exist[i as int]))
        }
    }

    /// What comes of a plan: the first missing file is an error, then the
    /// first part that fails is one, else there is a document.
    pub open spec fn outcome(self, plan: Plan) -> Ask {
        match plan.load {
            Some(path) => self.checked(
                Plan {
                    load: None,
                    parts: plan.parts.push(PartView::XmlProblem((self.text)(path))),
                    ..plan
                },
                0,
            ),
            None => self.checked(plan, 0),
        }
    }

    /// The last request of a build, if it ends within `n` answers.
    pub open spec fn run(self, step: (State, Ask), n: nat) -> Option<Ask>
        decreases n,
    {
        if step.1 is Finished || step.1 is Failed {
            Some(step.1)
        } else if n == 0 {
            None
        } else {
            self.run(step.0.answered(self.answer(step.1)), (n - 1) as nat)
        }
    }
}

/// One more answer.
proof fn lemma_run_step(w: World, step: (State, Ask), next: (State, Ask), n: nat) -> (m: nat)
    requires
        !(step.1 is Finished || step.1 is Failed),
        next == step.0.answered(w.answer(step.1)),
    ensures
        m == n + 1,
        w.run(step, m) == w.run(next, n),
{
    n + 1
}

/// A build that adds a file goes on to the end.
proof fn lemma_pack(w: World, state: State, name: Seq<char>, data: Seq<u8>) -> (n: nat)
    requires
        state.phase is Ready,
        state.part < state.plan.parts.len(),
    ensures
        w.run(state.pack(name, data), n) == Some(
            w.document(
                state.plan,
                state.part + 1,
                state.members.push(w.member(name, data, state.plan.tiversion)),
            ),
        ),
    decreases state.plan.parts.len() - state.part, 0int,
{
    if method_of(name) == METHOD_DEFLATED {
        let (deflated, data_type) = (w.deflate_file)(data);
        let next = state.with_member(name, data, deflated, data_type);
        let m = lemma_advance(w, next);
        let step = state.pack(name, data);
        assert(step.0.in_phase(Phase::Ready) == state);
        lemma_run_step(w, step, next.advance(), m)
    } else {
        lemma_advance(w, state.with_member(name, data, Seq::empty(), 0))
    }
}

/// A build that waits for a compressed problem goes on to the end.
proof fn lemma_seal(w: World, state: State, name: Seq<char>, xmlc: Seq<u8>) -> (n: nat)
    requires
        state.phase is Ready,
        state.part < state.plan.parts.len(),
    ensures
        w.run(state.seal(name, xmlc), n) == Some(
            w.document(
                state.plan,
                state.part + 1,
                state.members.push(w.member(name, w.seal(xmlc), state.plan.tiversion)),
            ),
        ),
    decreases state.plan.parts.len() - state.part, 1int,
{
    let step = state.seal(name, xmlc);
    let m = lemma_pack(w, state, name, w.seal(xmlc));
    assert(step.0.in_phase(Phase::Ready) == state);
    lemma_run_step(w, step, state.pack(name, w.seal(xmlc)), m)
}

/// A build that waits for an input file goes on to the end.
proof fn lemma_input(w: World, state: State, path: Seq<char>) -> (n: nat)
    requires
        state.phase is Ready,
        state.part < state.plan.parts.len(),
        state.plan.parts[state.part as int] == PartView::InputFile(path),
    ensures
        w.run(state.advance(), n) == Some(w.document(state.plan, state.part, state.members)),
    decreases state.plan.parts.len() - state.part, 2int,
{
    let step = state.advance();
    assert(step.0.in_phase(Phase::Ready) == state);
    assert(w.answer(step.1) == Answer::Contents(w.input(path)));
    let next = state.add_input(path, w.input(path));
    let m: nat = match w.input(path) {
        Some(contents) => match problem_data(path, contents) {
            Some(data) => {
                let name = problem_filename(path);
                if has_extension(name, ".xml"@) {
                    lemma_seal(w, state, name, data)
                } else {
                    lemma_pack(w, state, name, data)
                }
            },
            None => 0,
        },
        None => 0,
    };
    assert(w.run(next, m) == Some(w.document(state.plan, state.part, state.members)));
    lemma_run_step(w, step, next, m)
}

/// A build that has its output goes on to the end.
proof fn lemma_advance(w: World, state: State) -> (n: nat)
    requires
        state.phase is Ready,
        state.part <= state.plan.parts.len(),
    ensures
        w.run(state.advance(), n) == Some(w.document(state.plan, state.part, state.members)),
    decreases state.plan.parts.len() - state.part, 3int,
{
    if state.part >= state.plan.parts.len() {
        0
    } else {
        match state.plan.parts[state.part as int] {
            PartView::DefaultDocument => lemma_pack(
                w,
                state,
                "Document.xml"@,
                default_document(),
            ),
            PartView::PythonProblem(path) => {
                let name = encode_utf8(basename(path));
                if name.len() > MAX_PYTHON_NAME {
                    0
                } else {
                    lemma_seal(w, state, "Problem1.xml"@, python_problem(name))
                }
            },
            PartView::InputFile(path) => lemma_input(w, state, path),
            PartView::XmlProblem(xml) => {
                if let Some(xmlc) = xml_problem(xml) {
                    lemma_seal(w, state, "Problem1.xml"@, xmlc)
                } else {
                    0
                }
            },
        }
    }
}

/// A build that checks for its files goes on to the end.
proof fn lemma_check(w: World, state: State, i: nat) -> (n: nat)
    requires
        state.phase is Ready,
        state.part == 0,
        state.members.len() == 0,
    ensures
        w.run(state.check_from(i), n) == Some(w.checked(state.plan, i)),
    decreases state.plan.must_exist.len() - i,
{
    let step = state.check_from(i);
    assert(step.0.in_phase(Phase::Ready) == state);
    assert(state.members =~= Seq::empty());
    if i >= state.plan.must_exist.len() {
        let m = lemma_advance(w, state);
        lemma_run_step(w, step, state.advance(), m)
    } else if (w.exists)(state.plan.must_exist[i as int]) {
        let m = lemma_check(w, state, i + 1);
        lemma_run_step(w, step, state.check_from(i + 1), m)
    } else {
        let next = state.fail(Failure::NotFound(state.plan.must_exist[i as int]));
        lemma_run_step(w, step, next, 0)
    }
}

/// A build whose host answers every request ends, and it ends with what comes
/// of the plan.
pub proof fn law_build_outcome(w: World, plan: Plan) -> (n: nat)
    ensures
        w.run(begun(plan), n) == Some(w.outcome(plan)),
{
    let state = State { plan, part: 0, phase: Phase::Ready, members: Seq::empty() };
    match plan.load {
        Some(path) => {
            let step = begun(plan);
            assert(step.0.in_phase(Phase::Ready) == state);
            let loaded = state.with_problem((w.text)(path));
            let m = lemma_check(w, loaded, 0);
            lemma_run_step(w, step, loaded.check_from(0), m)
        },
        None => lemma_check(w, state, 0),
    }
}

/// A member with encrypted XML.
pub open spec fn encrypted_member(name: Seq<char>, data: Seq<u8>, tiversion: u32) -> Member {
    Member {
        name: encode_utf8(name),
        method: METHOD_ENCRYPTED,
        payload: data,
        crc: crc32(data),
        size: data.len(),
        internal_attr: 0,
        tiversion,
    }
}

/// What every document starts with.
pub open spec fn document_member(tiversion: u32) -> Member {
    encrypted_member("Document.xml"@, default_document(), tiversion)
}

/// The first problem of a document.
pub open spec fn problem_member(data: Seq<u8>, tiversion: u32) -> Member {
    encrypted_member("Problem1.xml"@, data, tiversion)
}

/// The fixed names are those of XML files.
proof fn lemma_fixed_names()
    ensures
        method_of("Document.xml"@) == METHOD_ENCRYPTED,
        method_of("Problem1.xml"@) == METHOD_ENCRYPTED,
        has_extension("Problem1.xml"@, ".xml"@),
{
    reveal_strlit("Document.xml");
    reveal_strlit("Problem1.xml");
    reveal_strlit(".xml");
    law_ascii_ends_with("Document.xml"@, ".xml"@);
    law_ascii_ends_with("Problem1.xml"@, ".xml"@);
    law_ascii_extension("Problem1.xml"@, ".xml"@);
}

/// No file is both XML and Lua.
proof fn lemma_xml_is_not_lua(path: Seq<char>)
    ensures
        !(is_xml(path) && is_lua(path)),
{
    reveal_strlit(".xml");
    reveal_strlit(".lua");
    reveal_strlit("-");
    is_ascii_chars_encode_utf8(".xml"@);
    is_ascii_chars_encode_utf8(".lua"@);
    is_ascii_chars_encode_utf8("-"@);
    assert(lowercase(".xml"@)[1] == 'x');
    assert(lowercase(".lua"@)[1] == 'l');
}

/// The default document comes first.
proof fn lemma_first_member(w: World, plan: Plan)
    requires
        plan.parts.len() > 0,
        plan.parts[0] == PartView::DefaultDocument,
    ensures
        w.document(plan, 0, Seq::empty()) == w.document(
            plan,
            1,
            seq![document_member(plan.tiversion)],
        ),
{
    lemma_fixed_names();
    assert(Seq::<Member>::empty().push(document_member(plan.tiversion)) =~= seq![
        document_member(plan.tiversion),
    ]);
}

/// The default document and a problem come first.
proof fn lemma_two_members(w: World, plan: Plan, data: Seq<u8>)
    requires
        plan.parts.len() > 1,
        plan.parts[0] == PartView::DefaultDocument,
        w.file_of(plan.parts[1]) == Ok::<(Seq<char>, Seq<u8>), Failure>(("Problem1.xml"@, data)),
    ensures
        w.document(plan, 0, Seq::empty()) == w.document(
            plan,
            2,
            seq![document_member(plan.tiversion), problem_member(data, plan.tiversion)],
        ),
{
    let v = plan.tiversion;
    lemma_fixed_names();
    lemma_first_member(w, plan);
    assert(seq![document_member(v)].push(problem_member(data, v)) =~= seq![
        document_member(v),
        problem_member(data, v),
    ]);
}

/// What a Lua script becomes.
proof fn lemma_lua_file(w: World, input: Seq<char>)
    requires
        is_lua(input),
    ensures
        w.file_of(PartView::InputFile(input)) == match w.input(input) {
            Some(script) => Ok::<(Seq<char>, Seq<u8>), Failure>(
                ("Problem1.xml"@, w.seal(lua_problem(script))),
            ),
            None => Err(Failure::Unreadable),
        },
{
    lemma_fixed_names();
    lemma_xml_is_not_lua(input);
}

/// Only the parts decide what becomes of a Lua script that exists.
proof fn lemma_lua_checked(w: World, input: Seq<char>, output: Seq<char>)
    requires
        input == "-"@ || (w.exists)(input),
    ensures
        w.outcome(lua_plan(input, output)) == w.document(lua_plan(input, output), 0, Seq::empty()),
{
    lemma_all_exist(w, lua_plan(input, output), 0);
}

/// A Lua script that can be read becomes a document of two members: the fixed
/// `Document.xml`, and `Problem1.xml` with the script.
pub proof fn law_lua_document(w: World, input: Seq<char>, output: Seq<char>, script: Seq<u8>)
    requires
        is_lua(input),
        input == "-"@ || (w.exists)(input),
        w.input(input) == Some(script),
    ensures
        w.outcome(lua_plan(input, output)) == Ask::Finished(
            archive_of(
                0,
                seq![
                    document_member(tiversion_for(seq![input])),
                    problem_member(w.seal(lua_problem(script)), tiversion_for(seq![input])),
                ],
            ),
        ),
{
    lemma_lua_checked(w, input, output);
    lemma_lua_file(w, input);
    lemma_two_members(w, lua_plan(input, output), w.seal(lua_problem(script)));
}

/// A Lua file is no bitmap.
proof fn lemma_lua_version(input: Seq<char>)
    requires
        is_lua(input),
    ensures
        tiversion_for(seq![input]) == TIVERSION,
{
    reveal_strlit(".bmp");
    reveal_strlit(".lua");
    reveal_strlit("-");
    if is_bitmap(input) {
        lemma_ascii_lowercase(".bmp"@);
        lemma_ascii_lowercase(".lua"@);
        assert(lowercase(".bmp"@) =~= ".bmp"@);
        assert(lowercase(".lua"@)[1] == 'l');
        lemma_other_extension(input, ".bmp"@, ".lua"@);
    }
    assert(!is_bitmap(seq![input][0]));
}

/// A Lua script on standard input becomes the same document as one in a file,
/// or the same error if it cannot be read.
pub proof fn law_standard_input(w: World, path: Seq<char>, output: Seq<char>)
    requires
        is_lua(path),
        path == "-"@ || (w.exists)(path),
        w.input(path) == w.stdin,
    ensures
        w.outcome(lua_plan("-"@, output)) == w.outcome(lua_plan(path, output)),
{
    let a = lua_plan("-"@, output);
    let b = lua_plan(path, output);
    lemma_lua_checked(w, "-"@, output);
    lemma_lua_checked(w, path, output);
    lemma_lua_file(w, "-"@);
    lemma_lua_file(w, path);
    lemma_lua_version("-"@);
    lemma_lua_version(path);
    match w.stdin {
        Some(script) => {
            lemma_two_members(w, a, w.seal(lua_problem(script)));
            lemma_two_members(w, b, w.seal(lua_problem(script)));
        },
        None => {
            lemma_first_member(w, a);
            lemma_first_member(w, b);
        },
    }
}

/// A file that is read and put into a document as it is.
pub open spec fn is_plain(w: World, path: Seq<char>) -> bool {
    &&& !is_xml(path)
    &&& !is_lua(path)
    &&& w.input(path) is Some
}

/// The members that plain files become.
pub open spec fn plain_members(w: World, paths: Seq<Seq<char>>, tiversion: u32) -> Seq<Member> {
    Seq::new(
        paths.len(),
        |i: int| w.member(basename(paths[i]), w.input(paths[i])->0, tiversion),
    )
}

/// Where all files exist, only the parts decide.
proof fn lemma_all_exist(w: World, plan: Plan, i: nat)
    requires
        i <= plan.must_exist.len(),
        forall|j: int| 0 <= j < plan.must_exist.len() ==> (w.exists)(#[trigger] plan.must_exist[j]),
    ensures
        w.checked(plan, i) == w.document(plan, 0, Seq::empty()),
    decreases plan.must_exist.len() - i,
{
    if i < plan.must_exist.len() {
        assert((w.exists)(plan.must_exist[i as int]));
        lemma_all_exist(w, plan, i + 1);
    }
}

/// Where a file is missing, the first such file is the error.
proof fn lemma_first_missing(w: World, plan: Plan, i: nat, k: nat)
    requires
        i <= k < plan.must_exist.len(),
        !(w.exists)(plan.must_exist[k as int]),
        forall|j: int| 0 <= j < k ==> (w.exists)(#[trigger] plan.must_exist[j]),
    ensures
        w.checked(plan, i) == Ask::Failed(Failure::NotFound(plan.must_exist[k as int])),
    decreases k - i,
{
    if i < k {
        assert((w.exists)(plan.must_exist[i as int]));
        lemma_first_missing(w, plan, i + 1, k);
    }
}

/// The parts from `k` on, which are plain files, are added one by one.
proof fn lemma_plain_parts(
    w: World,
    plan: Plan,
    k: nat,
    members: Seq<Member>,
    paths: Seq<Seq<char>>,
)
    requires
        k + paths.len() == plan.parts.len(),
        forall|i: int|
            0 <= i < paths.len() ==> plan.parts[k + i] == PartView::InputFile(#[trigger] paths[i])
                && is_plain(w, paths[i]),
    ensures
        w.document(plan, k, members) == Ask::Finished(
            archive_of(0, members + plain_members(w, paths, plan.tiversion)),
        ),
    decreases paths.len(),
{
    if paths.len() == 0 {
        assert(members + plain_members(w, paths, plan.tiversion) =~= members);
    } else {
        let path = paths[0];
        let rest = paths.skip(1);
        assert(plan.parts[k as int + 0] == PartView::InputFile(path));
        let m = w.member(basename(path), w.input(path)->0, plan.tiversion);
        if has_extension(basename(path), ".xml"@) {
            law_basename_extension(path, ".xml"@);
        }
        assert(w.file_of(plan.parts[k as int]) == Ok::<(Seq<char>, Seq<u8>), Failure>(
            (basename(path), w.input(path)->0),
        ));
        assert forall|i: int| 0 <= i < rest.len() implies plan.parts[k as int + 1 + i]
            == PartView::InputFile(#[trigger] rest[i]) && is_plain(w, rest[i]) by {
            assert(rest[i] == paths[i + 1]);
            assert(plan.parts[k + (i + 1)] == PartView::InputFile(paths[i + 1]));
        }
        lemma_plain_parts(w, plan, k + 1, members.push(m), rest);
        assert(members + plain_members(w, paths, plan.tiversion) =~= members.push(m)
            + plain_members(w, rest, plan.tiversion));
    }
}

/// Python scripts that exist and can be read become a document with the fixed
/// `Document.xml`, a `Problem1.xml` that shows the first script, and the
/// scripts in their order under their file names.
pub proof fn law_python_document(w: World, inputs: Seq<Seq<char>>, output: Seq<char>)
    requires
        inputs.len() > 0,
        encode_utf8(basename(inputs[0])).len() <= MAX_PYTHON_NAME,
        forall|i: int|
            0 <= i < inputs.len() ==> (w.exists)(#[trigger] inputs[i]) && is_plain(w, inputs[i]),
    ensures
        w.outcome(python_plan(inputs, output)) == Ask::Finished(
            archive_of(
                0,
                seq![
                    document_member(tiversion_for(inputs)),
                    problem_member(
                        w.seal(python_problem(encode_utf8(basename(inputs[0])))),
                        tiversion_for(inputs),
                    ),
                ] + plain_members(w, inputs, tiversion_for(inputs)),
            ),
        ),
{
    let plan = python_plan(inputs, output);
    let v = plan.tiversion;
    let problem = w.seal(python_problem(encode_utf8(basename(inputs[0]))));
    let two = seq![document_member(v), problem_member(problem, v)];
    lemma_all_exist(w, plan, 0);
    lemma_python_parts(inputs, output);
    lemma_two_members(w, plan, problem);
    lemma_plain_parts(w, plan, 2, two, inputs);
}

/// The parts of a document of Python scripts.
proof fn lemma_python_parts(inputs: Seq<Seq<char>>, output: Seq<char>)
    requires
        inputs.len() > 0,
    ensures
        python_plan(inputs, output).parts.len() == 2 + inputs.len(),
        python_plan(inputs, output).parts[0] == PartView::DefaultDocument,
        python_plan(inputs, output).parts[1] == PartView::PythonProblem(inputs[0]),
        forall|i: int|
            0 <= i < inputs.len() ==> python_plan(inputs, output).parts[2 + i]
                == PartView::InputFile(#[trigger] inputs[i]),
{
}

/// XML becomes a document of two members if it is valid problem XML, else an
/// error.
pub proof fn law_notes_document(w: World, xml: Seq<u8>, output: Seq<char>)
    ensures
        w.outcome(notes_xml_plan(xml, output)) == match xml_problem(xml) {
            Some(xmlc) => Ask::Finished(
                archive_of(
                    0,
                    seq![
                        document_member(TIVERSION),
                        problem_member(w.seal(xmlc), TIVERSION),
                    ],
                ),
            ),
            None => Ask::Failed(Failure::BadXml),
        },
{
    let plan = notes_xml_plan(xml, output);
    match xml_problem(xml) {
        Some(xmlc) => lemma_two_members(w, plan, w.seal(xmlc)),
        None => lemma_first_member(w, plan),
    }
}

/// An XML file is compiled as its text is.
pub proof fn law_notes_file(w: World, input: Seq<char>, output: Seq<char>)
    ensures
        w.outcome(notes_file_plan(input, output)) == w.outcome(
            notes_xml_plan((w.text)(input), output),
        ),
{
    let xml = (w.text)(input);
    let plan = notes_file_plan(input, output);
    assert(plan.parts.push(PartView::XmlProblem(xml)) =~= notes_xml_plan(xml, output).parts);
}

/// The member that a part becomes.
pub open spec fn part_member(w: World, part: PartView, tiversion: u32) -> Member {
    let (name, data) = w.file_of(part)->Ok_0;
    w.member(name, data, tiversion)
}

/// The members that parts become.
pub open spec fn part_members(w: World, parts: Seq<PartView>, tiversion: u32) -> Seq<Member> {
    Seq::new(parts.len(), |i: int| part_member(w, parts[i], tiversion))
}

/// The parts up to number `k`, none of which fails, are added one by one.
proof fn lemma_parts_added(w: World, plan: Plan, k: nat)
    requires
        k <= plan.parts.len(),
        forall|i: int| 0 <= i < k ==> w.file_of(#[trigger] plan.parts[i]) is Ok,
    ensures
        w.document(plan, 0, Seq::empty()) == w.document(
            plan,
            k,
            part_members(w, plan.parts.take(k as int), plan.tiversion),
        ),
    decreases k,
{
    let done = part_members(w, plan.parts.take(k as int), plan.tiversion);
    if k == 0 {
        assert(done =~= Seq::empty());
    } else {
        let before = (k - 1) as nat;
        let part = plan.parts[before as int];
        lemma_parts_added(w, plan, before);
        assert(w.file_of(part) is Ok);
        assert(done =~= part_members(w, plan.parts.take(before as int), plan.tiversion).push(
            part_member(w, part, plan.tiversion),
        ));
    }
}

/// Where all files exist and no part fails, every part becomes a member of the
/// document, in order.
pub proof fn law_parts_document(w: World, plan: Plan)
    requires
        plan.load is None,
        forall|j: int| 0 <= j < plan.must_exist.len() ==> (w.exists)(#[trigger] plan.must_exist[j]),
        forall|i: int| 0 <= i < plan.parts.len() ==> w.file_of(#[trigger] plan.parts[i]) is Ok,
    ensures
        w.outcome(plan) == Ask::Finished(
            archive_of(0, part_members(w, plan.parts, plan.tiversion)),
        ),
{
    lemma_all_exist(w, plan, 0);
    lemma_parts_added(w, plan, plan.parts.len());
    assert(plan.parts.take(plan.parts.len() as int) =~= plan.parts);
}

/// Where all files exist, the first part that fails is the error.
pub proof fn law_failing_part(w: World, plan: Plan, k: nat)
    requires
        plan.load is None,
        forall|j: int| 0 <= j < plan.must_exist.len() ==> (w.exists)(#[trigger] plan.must_exist[j]),
        k < plan.parts.len(),
        forall|i: int| 0 <= i < k ==> w.file_of(#[trigger] plan.parts[i]) is Ok,
        w.file_of(plan.parts[k as int]) is Err,
    ensures
        w.outcome(plan) == Ask::Failed(w.file_of(plan.parts[k as int])->Err_0),
{
    lemma_all_exist(w, plan, 0);
    lemma_parts_added(w, plan, k);
}

/// A note whose text does not break out of its CDATA section becomes a
/// document of two members, `Document.xml` and `Problem1.xml`, which a reader
/// finds under these names.
pub proof fn law_note_document(w: World, text: Seq<char>, output: Seq<char>)
    requires
        !breaks_out(text),
    ensures
        ({
            let problem = xml_header() + note_front() + escaped_chars(text) + note_back();
            let file = archive_of(
                0,
                seq![
                    document_member(TIVERSION),
                    problem_member(w.seal(problem), TIVERSION),
                ],
            );
            &&& w.outcome(notes_xml_plan(encode_utf8(notes_xml(text)), output)) == Ask::Finished(
                file,
            )
            &&& (w.deflate_xml)(problem).len() + 434 < 0x1_0000_0000 ==> {
                let found = read_archive(file, 0);
                &&& found.len() == 2
                &&& found[0].name == encode_utf8("Document.xml"@)
                &&& found[1].name == encode_utf8("Problem1.xml"@)
                &&& unsealed(found[1].payload) == (w.deflate_xml)(problem)
            }
        }),
{
    let problem = xml_header() + note_front() + escaped_chars(text) + note_back();
    law_note_problem(text);
    law_notes_document(w, encode_utf8(notes_xml(text)), output);
    lemma_lengths();
    law_seal_round_trip((w.deflate_xml)(problem));
    if (w.deflate_xml)(problem).len() + 434 < 0x1_0000_0000 {
        lemma_problem_found(w.seal(problem), TIVERSION);
    }
}

/// Where input files are missing, the first of them is reported, and no
/// document is made.
pub proof fn law_missing_input(w: World, plan: Plan, k: nat)
    requires
        plan.load is None,
        k < plan.must_exist.len(),
        !(w.exists)(plan.must_exist[k as int]),
        forall|j: int| 0 <= j < k ==> (w.exists)(#[trigger] plan.must_exist[j]),
    ensures
        w.outcome(plan) == Ask::Failed(Failure::NotFound(plan.must_exist[k as int])),
{
    lemma_first_missing(w, plan, 0, k);
}

/// What a compressed and encrypted problem was made from.
pub open spec fn unsealed(data: Seq<u8>) -> Seq<u8> {
    crypted(data.skip(tien_header().len() as int))
}

/// Decrypting what follows the header of an encrypted problem gives back what
/// was encrypted.
pub proof fn law_seal_round_trip(deflated: Seq<u8>)
    ensures
        sealed(deflated).take(tien_header().len() as int) == tien_header(),
        unsealed(sealed(deflated)) == deflated,
{
    assert(sealed(deflated).take(tien_header().len() as int) =~= tien_header());
    assert(sealed(deflated).skip(tien_header().len() as int) =~= crypted(deflated));
    law_crypt_round_trip(deflated);
}

/// A record is as long as its header and its payload.
proof fn lemma_record_len(m: Member, first: bool)
    requires
        first ==> m.tiversion < 0x1_0000,
    ensures
        local_record(m, first).len() == (if first {
            36int
        } else {
            30
        }) + m.name.len() + m.payload.len(),
{
    lemma_open_header_len(m, first);
    lemma_size_fields_len(m);
}

/// Two members whose records fit into 32 bits can be represented.
proof fn lemma_two_representable(a: Member, b: Member)
    requires
        a.tiversion < 0x1_0000,
        a.name.len() < 0x1_0000,
        b.name.len() < 0x1_0000,
        66 + a.name.len() + b.name.len() + a.payload.len() + b.payload.len() < 0x1_0000_0000,
        a.size < 0x1_0000_0000,
        b.size < 0x1_0000_0000,
    ensures
        archive_representable(0, seq![a, b]),
{
    let two = seq![a, b];
    let one = two.drop_last();
    assert(one =~= seq![a]);
    assert(one.drop_last() =~= Seq::empty());
    lemma_record_len(a, true);
    lemma_record_len(b, false);
    assert(image_of(one.drop_last()).len() == 0);
    assert(image_of(one).len() == local_record(a, true).len());
    assert(image_of(two).len() == image_of(one).len() + local_record(b, false).len());
}

/// A document with one problem gives back the problem.
proof fn lemma_problem_found(data: Seq<u8>, tiversion: u32)
    requires
        tiversion < 0x1_0000,
        data.len() + 394 < 0x1_0000_0000,
    ensures
        ({
            let found = read_archive(
                archive_of(0, seq![document_member(tiversion), problem_member(data, tiversion)]),
                0,
            );
            &&& found.len() == 2
            &&& found[0].name == encode_utf8("Document.xml"@)
            &&& found[0].method == 13
            &&& found[0].payload == default_document()
            &&& found[1].name == encode_utf8("Problem1.xml"@)
            &&& found[1].method == 13
            &&& found[1].payload == data
        }),
{
    let a = document_member(tiversion);
    let b = problem_member(data, tiversion);
    lemma_lengths();
    assert(a.name.len() == 12 && b.name.len() == 12) by {
        reveal_strlit("Document.xml");
        reveal_strlit("Problem1.xml");
        is_ascii_chars_encode_utf8("Document.xml"@);
        is_ascii_chars_encode_utf8("Problem1.xml"@);
    }
    lemma_two_representable(a, b);
    law_read_back(0, seq![a, b]);
    assert(stored_all(seq![a, b])[0] == stored(a));
    assert(stored_all(seq![a, b])[1] == stored(b));
}

/// A Lua script can be read back from its document, by whoever can undo the
/// compression: the second member holds the script, in a CDATA section behind
/// the header of a Lua problem.
pub proof fn law_lua_recovered(
    w: World,
    inflate: spec_fn(Seq<u8>) -> Seq<u8>,
    input: Seq<char>,
    output: Seq<char>,
    script: Seq<u8>,
)
    requires
        is_lua(input),
        input == "-"@ || (w.exists)(input),
        w.input(input) == Some(script),
        inflate((w.deflate_xml)(lua_problem(script))) == lua_problem(script),
        (w.deflate_xml)(lua_problem(script)).len() + 434 < 0x1_0000_0000,
    ensures
        w.outcome(lua_plan(input, output)) matches Ask::Finished(file) && ({
            let found = read_archive(file, 0);
            &&& found.len() == 2
            &&& found[1].name == encode_utf8("Problem1.xml"@)
            &&& read_cdata(
                inflate(unsealed(found[1].payload)).skip(lua_header().len() as int),
            ) == Some((script, lua_footer().skip(3)))
        }),
{
    let v = tiversion_for(seq![input]);
    let deflated = (w.deflate_xml)(lua_problem(script));
    law_lua_document(w, input, output, script);
    lemma_lengths();
    lemma_problem_found(w.seal(lua_problem(script)), v);
    law_seal_round_trip(deflated);
    law_lua_round_trip(script);
}

/// The version that a document starts with is that of the plan.
proof fn lemma_document_version(w: World, plan: Plan, k: nat, members: Seq<Member>)
    requires
        plan.tiversion < 0x1_0000,
        members.len() + plan.parts.len() > k,
        k <= plan.parts.len(),
        members.len() > 0 ==> members[0].tiversion == plan.tiversion,
        w.document(plan, k, members) is Finished,
    ensures
        occurs_at(
            w.document(plan, k, members)->Finished_0,
            0,
            seq![0x2au8, 0x54, 0x49, 0x4d, 0x4c, 0x50] + hex_padded(plan.tiversion as nat, 4),
        ),
    decreases plan.parts.len() - k,
{
    if k == plan.parts.len() {
        law_version_header(0, members);
    } else {
        let (name, data) = w.file_of(plan.parts[k as int])->Ok_0;
        let m = w.member(name, data, plan.tiversion);
        assert(members.push(m)[0].tiversion == plan.tiversion);
        lemma_document_version(w, plan, k + 1, members.push(m));
    }
}

/// `*TIMLP0` and the digits `d`, 0 and 0.
pub open spec fn version_mark(d: u8) -> Seq<u8> {
    seq![0x2a, 0x54, 0x49, 0x4d, 0x4c, 0x50, 0x30, d, 0x30, 0x30]
}

/// Every document that is made of files starts with `*TIMLP0700` if one of
/// them is a bitmap, else with `*TIMLP0500`.
pub proof fn law_document_version(w: World, inputs: Seq<Seq<char>>, plan: Plan)
    requires
        plan.load is None,
        plan.parts.len() > 0,
        plan.tiversion == tiversion_for(inputs),
        w.outcome(plan) is Finished,
    ensures
        occurs_at(
            w.outcome(plan)->Finished_0,
            0,
            if exists|i: int|
                0 <= i < inputs.len() && is_bitmap(#[trigger] inputs[i]) {
                version_mark(0x37)
            } else {
                version_mark(0x35)
            },
        ),
{
    lemma_checked_finished(w, plan, 0);
    lemma_document_version(w, plan, 0, Seq::empty());
    reveal_with_fuel(hex_padded, 6);
    assert(hex_padded(0x0500, 4) =~= seq![0x30u8, 0x35, 0x30, 0x30]);
    assert(hex_padded(0x0700, 4) =~= seq![0x30u8, 0x37, 0x30, 0x30]);
    let mark = seq![0x2au8, 0x54, 0x49, 0x4d, 0x4c, 0x50];
    assert(mark + seq![0x30u8, 0x35, 0x30, 0x30] =~= version_mark(0x35));
    assert(mark + seq![0x30u8, 0x37, 0x30, 0x30] =~= version_mark(0x37));
}

/// A document comes only where all files exist.
proof fn lemma_checked_finished(w: World, plan: Plan, i: nat)
    requires
        w.checked(plan, i) is Finished,
    ensures
        w.checked(plan, i) == w.document(plan, 0, Seq::empty()),
    decreases plan.must_exist.len() - i,
{
    if i < plan.must_exist.len() {
        lemma_checked_finished(w, plan, i + 1);
    }
}

/// What an input file becomes shows in the last four characters of its path. A
/// Lua script becomes `Problem1.xml` with the script in a CDATA section,
/// compressed and encrypted. XML keeps its name and becomes its problem,
/// compressed and encrypted, or is an error. Any other file is kept.
pub proof fn law_input_file(w: World, path: Seq<char>)
    requires
        has_ascii_tail(path),
    ensures
        ({
            let lua = path == "-"@ || (path.len() > 4 && ends_in_letters(path, 'l', 'u', 'a'));
            let xml = path.len() > 4 && ends_in_letters(path, 'x', 'm', 'l');
            match w.input(path) {
                Some(contents) => {
                    &&& lua ==> w.file_of(PartView::InputFile(path)) == Ok::<
                        (Seq<char>, Seq<u8>),
                        Failure,
                    >(
                        (
                            "Problem1.xml"@,
                            w.seal(lua_header() + cdata_safe(contents) + lua_footer()),
                        ),
                    )
                    &&& xml && basename(path).len() > 4 ==> w.file_of(PartView::InputFile(path))
                        == match xml_problem(contents) {
                        Some(xmlc) => Ok::<(Seq<char>, Seq<u8>), Failure>(
                            (basename(path), w.seal(xmlc)),
                        ),
                        None => Err(Failure::Unreadable),
                    }
                    &&& !lua && !xml ==> w.file_of(PartView::InputFile(path)) == Ok::<
                        (Seq<char>, Seq<u8>),
                        Failure,
                    >((basename(path), contents))
                },
                None => w.file_of(PartView::InputFile(path)) == Err::<
                    (Seq<char>, Seq<u8>),
                    Failure,
                >(Failure::Unreadable),
            }
        }),
{
    lemma_fixed_names();
    reveal_strlit("-");
    if let Some(contents) = w.input(path) {
        if path == "-"@ {
            law_dash_is_lua(contents);
        } else if path.len() > 4 && ends_in_letters(path, 'l', 'u', 'a') {
            law_lua_path(path, contents);
        } else if path.len() > 4 && ends_in_letters(path, 'x', 'm', 'l') {
            law_xml_path(path, contents);
            if basename(path).len() > 4 {
                lemma_basename_is_xml(path);
            }
        } else {
            law_other_path(path, contents);
            if has_extension(basename(path), ".xml"@) {
                law_basename_extension(path, ".xml"@);
                reveal_strlit(".xml");
                assert(".xml"@ =~= seq!['.', 'x', 'm', 'l']);
                law_extension_letters(path, ".xml"@, 'x', 'm', 'l');
            }
        }
    }
}

/// A file name that is longer than `.xml` and ends with it has the extension.
proof fn lemma_basename_is_xml(path: Seq<char>)
    requires
        ends_in_letters(path, 'x', 'm', 'l'),
        basename(path).len() > 4,
    ensures
        has_extension(basename(path), ".xml"@),
{
    let name = basename(path);
    law_basename_splits(path);
    let dir = path.take(path.len() - name.len());
    assert(path == dir + name);
    assert(path[path.len() - 4] == name[name.len() - 4]);
    assert(path[path.len() - 3] == name[name.len() - 3]);
    assert(path[path.len() - 2] == name[name.len() - 2]);
    assert(path[path.len() - 1] == name[name.len() - 1]);
    assert(has_ascii_tail(name));
    reveal_strlit(".xml");
    assert(".xml"@ =~= seq!['.', 'x', 'm', 'l']);
    law_extension_letters(name, ".xml"@, 'x', 'm', 'l');
}

/// What a file with an ASCII name becomes shows in the last four characters of
/// the name: XML has method 13 and bitmaps have method 0, both with the contents
/// as they are; any other file has method 8 and what deflate makes of it. Name,
/// size and checksum are always those of the file.
pub proof fn law_packed_file(w: World, name: Seq<char>, data: Seq<u8>, tiversion: u32)
    requires
        is_ascii_chars(name),
    ensures
        ({
            let m = w.member(name, data, tiversion);
            let xml = ends_in_letters(name, 'x', 'm', 'l');
            let bitmap = ends_in_letters(name, 'b', 'm', 'p');
            &&& m.name == encode_utf8(name)
            &&& m.size == data.len()
            &&& m.crc == crc32(data)
            &&& m.tiversion == tiversion
            &&& xml ==> m.method == 13 && m.payload == data
            &&& !xml && bitmap ==> m.method == 0 && m.payload == data
            &&& !xml && !bitmap ==> m.method == 8 && m.payload == (w.deflate_file)(data).0
        }),
{
    reveal_strlit(".xml");
    assert(".xml"@ =~= seq!['.', 'x', 'm', 'l']);
    law_lowercase_letters(name, ".xml"@, 'x', 'm', 'l');
    law_bitmap_letters(name);
}

/// Whether a path names a file that is neither Lua, nor XML, nor a bitmap.
pub open spec fn is_ordinary(path: Seq<char>) -> bool {
    &&& has_ascii_tail(path)
    &&& is_ascii_chars(basename(path))
    &&& path != "-"@
    &&& !ends_in_letters(path, 'l', 'u', 'a')
    &&& !ends_in_letters(path, 'x', 'm', 'l')
    &&& !ends_in_letters(path, 'b', 'm', 'p')
}

/// Ordinary files are kept as they are.
proof fn lemma_ordinary_is_plain(w: World, path: Seq<char>)
    requires
        is_ordinary(path),
        w.input(path) is Some,
    ensures
        is_plain(w, path),
        !ends_in_letters(basename(path), 'x', 'm', 'l'),
        !ends_in_letters(basename(path), 'b', 'm', 'p'),
{
    reveal_strlit(".xml");
    reveal_strlit(".lua");
    assert(".xml"@ =~= seq!['.', 'x', 'm', 'l']);
    assert(".lua"@ =~= seq!['.', 'l', 'u', 'a']);
    law_extension_letters(path, ".xml"@, 'x', 'm', 'l');
    law_extension_letters(path, ".lua"@, 'l', 'u', 'a');
    if ends_in_letters(basename(path), 'x', 'm', 'l') {
        law_basename_letters(path, 'x', 'm', 'l');
    }
    if ends_in_letters(basename(path), 'b', 'm', 'p') {
        law_basename_letters(path, 'b', 'm', 'p');
    }
}

/// Python scripts, and other ordinary files with them, can be read back from
/// their document by whoever can undo the compression. A reader finds
/// `Document.xml`, a `Problem1.xml` with the name of the first script between
/// fixed parts, and each file under its name, compressed, however long it is.
pub proof fn law_python_recovered(
    w: World,
    inflate: spec_fn(Seq<u8>) -> Seq<u8>,
    inputs: Seq<Seq<char>>,
    output: Seq<char>,
    i: int,
)
    requires
        inputs.len() > 0,
        encode_utf8(basename(inputs[0])).len() <= 240,
        forall|j: int|
            0 <= j < inputs.len() ==> (w.exists)(#[trigger] inputs[j]) && is_ordinary(inputs[j])
                && w.input(inputs[j]) is Some,
        archive_representable(0, python_members(w, inputs)),
        0 <= i < inputs.len(),
        inflate((w.deflate_file)(w.input(inputs[i])->0).0) == w.input(inputs[i])->0,
    ensures
        w.outcome(python_plan(inputs, output)) matches Ask::Finished(file) && ({
            let found = read_archive(file, 0);
            let contents = w.input(inputs[i])->0;
            let name = encode_utf8(basename(inputs[0]));
            &&& found.len() == 2 + inputs.len()
            &&& found[0].name == encode_utf8("Document.xml"@)
            &&& found[0].method == 13
            &&& found[0].payload == default_document()
            &&& found[1].name == encode_utf8("Problem1.xml"@)
            &&& found[1].method == 13
            &&& unsealed(found[1].payload) == (w.deflate_xml)(
                python_header() + name + python_footer(),
            )
            &&& found[2 + i].name == encode_utf8(basename(inputs[i]))
            &&& found[2 + i].method == 8
            &&& found[2 + i].size == contents.len()
            &&& found[2 + i].crc == crc32(contents)
            &&& inflate(found[2 + i].payload) == contents
        }),
{
    let v = tiversion_for(inputs);
    let name = encode_utf8(basename(inputs[0]));
    let ms = python_members(w, inputs);
    let path = inputs[i];
    assert forall|j: int| 0 <= j < inputs.len() implies is_plain(w, #[trigger] inputs[j]) by {
        lemma_ordinary_is_plain(w, inputs[j]);
    }
    lemma_ordinary_is_plain(w, path);
    law_python_document(w, inputs, output);
    law_read_back(0, ms);
    law_packed_file(w, basename(path), w.input(path)->0, v);
    law_seal_round_trip((w.deflate_xml)(python_problem(name)));
    assert(stored_all(ms)[0] == stored(document_member(v)));
    assert(stored_all(ms)[1] == stored(problem_member(w.seal(python_problem(name)), v)));
    assert(stored_all(ms)[2 + i] == stored(ms[2 + i]));
    assert(ms[2 + i] == w.member(basename(path), w.input(path)->0, v));
}

/// The members of a document of Python scripts.
pub open spec fn python_members(w: World, inputs: Seq<Seq<char>>) -> Seq<Member> {
    let v = tiversion_for(inputs);
    seq![
        document_member(v),
        problem_member(w.seal(python_problem(encode_utf8(basename(inputs[0])))), v),
    ] + plain_members(w, inputs, v)
}

/// A Lua file can be read back from its document, by whoever can undo the
/// compression, whatever directory it is in and in whatever letter case its path
/// ends with `.lua`. A reader finds `Document.xml` and `Problem1.xml`.
pub proof fn law_lua_file_recovered(
    w: World,
    inflate: spec_fn(Seq<u8>) -> Seq<u8>,
    path: Seq<char>,
    output: Seq<char>,
    script: Seq<u8>,
)
    requires
        path.len() > 4,
        ends_in_letters(path, 'l', 'u', 'a'),
        (w.exists)(path),
        (w.contents)(path) == Some(script),
        inflate((w.deflate_xml)(lua_header() + cdata_safe(script) + lua_footer())) == lua_header()
            + cdata_safe(script) + lua_footer(),
        (w.deflate_xml)(lua_header() + cdata_safe(script) + lua_footer()).len() + 434
            < 0x1_0000_0000,
    ensures
        w.outcome(lua_plan(path, output)) matches Ask::Finished(file) && ({
            let found = read_archive(file, 0);
            let problem = inflate(unsealed(found[1].payload));
            &&& found.len() == 2
            &&& found[0].name == encode_utf8("Document.xml"@)
            &&& found[0].method == 13
            &&& found[0].payload == default_document()
            &&& found[1].name == encode_utf8("Problem1.xml"@)
            &&& found[1].method == 13
            &&& problem.take(lua_header().len() as int) == lua_header()
            &&& read_cdata(problem.skip(lua_header().len() as int)) == Some(
                (script, lua_footer().skip(3)),
            )
        }),
{
    assert(has_ascii_tail(path));
    reveal_strlit(".lua");
    reveal_strlit("-");
    assert(".lua"@ =~= seq!['.', 'l', 'u', 'a']);
    law_extension_letters(path, ".lua"@, 'l', 'u', 'a');
    law_lua_document(w, path, output, script);
    lemma_lengths();
    lemma_problem_found(w.seal(lua_problem(script)), tiversion_for(seq![path]));
    law_seal_round_trip((w.deflate_xml)(lua_problem(script)));
    law_lua_round_trip(script);
}

/// A Lua file that does not exist is reported, and so is the first of several
/// Python scripts that does not. Standard input is not looked for.
pub proof fn law_sources_must_exist(
    w: World,
    input: Seq<char>,
    inputs: Seq<Seq<char>>,
    output: Seq<char>,
    k: int,
)
    requires
        0 <= k < inputs.len(),
        !(w.exists)(inputs[k]),
        forall|j: int| 0 <= j < k ==> (w.exists)(#[trigger] inputs[j]),
    ensures
        input != "-"@ && !(w.exists)(input) ==> w.outcome(lua_plan(input, output)) == Ask::Failed(
            Failure::NotFound(input),
        ),
        lua_plan("-"@, output).must_exist.len() == 0,
        w.outcome(python_plan(inputs, output)) == Ask::Failed(Failure::NotFound(inputs[k])),
{
    if input != "-"@ && !(w.exists)(input) {
        law_missing_input(w, lua_plan(input, output), 0);
    }
    law_missing_input(w, python_plan(inputs, output), k as nat);
}

/// The name of the first Python script may take 240 bytes; a longer one is an
/// error.
pub proof fn law_long_name(w: World, inputs: Seq<Seq<char>>, output: Seq<char>)
    requires
        inputs.len() > 0,
        forall|j: int| 0 <= j < inputs.len() ==> (w.exists)(#[trigger] inputs[j]),
        encode_utf8(basename(inputs[0])).len() > 240,
    ensures
        w.outcome(python_plan(inputs, output)) == Ask::Failed(Failure::FilenameTooLong),
{
    let plan = python_plan(inputs, output);
    lemma_all_exist(w, plan, 0);
    lemma_python_parts(inputs, output);
    lemma_first_member(w, plan);
}

/// Without a script there is a document with nothing but `Document.xml`.
pub proof fn law_no_scripts(w: World, output: Seq<char>)
    ensures
        w.outcome(python_plan(Seq::empty(), output)) == Ask::Finished(
            archive_of(0, seq![document_member(0x0500)]),
        ),
{
    let plan = python_plan(Seq::empty(), output);
    lemma_all_exist(w, plan, 0);
    lemma_first_member(w, plan);
}

} // verus!
