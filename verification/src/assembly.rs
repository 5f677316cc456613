//! Carries out a [`Job`]. What a build cannot do itself, it asks its host for:
//! one [`Request`] at a time, and it goes on with the [`Reply`].

use vstd::prelude::*;
use vstd::utf8::encode_utf8;

use crate::bytes::{append_bytes, copy_bytes};
use crate::compile::{CompileError, Failure, Job, Part, PartView, Plan, MAX_PYTHON_NAME};
use crate::doccrypt::crypted;
use crate::doccrypt::doccrypt;
use crate::problem::{lemma_extension_len, problem_data, problem_filename, python_problem};
use crate::problem::{read_file_and_xml_compress, read_file_and_xml_compress_bytes, xml_problem};
use crate::templates::{append_default_document, append_python_footer, append_python_header};
use crate::templates::{append_tien_header, default_document, tien_header};
use crate::text::{basename, has_extension, lemma_basename_splits_before_last, splits_before_last};
use crate::text::lemma_ascii_splits;
use crate::text::{gnu_basename, has_ext, lowercase_ends_with, names_bitmap, str_equal};
use crate::zip_writer::{archive_of, image_of, member_of, method_of, Member, METHOD_DEFLATED};
use crate::zip_writer::{Deflated, TiZipWriter};

verus! {

/// What a build needs from its host.
pub enum Request {
    /// Read this text file; it has to be valid UTF-8.
    LoadText(String),
    /// Find out whether this file exists.
    CheckExists(String),
    /// Create this file; the document goes there.
    CreateOutput(String),
    /// Read this file.
    ReadFile(String),
    /// Read standard input.
    ReadStdin,
    /// Compress this problem with raw deflate at the default level.
    DeflateXml(Vec<u8>),
    /// Compress this file with raw deflate at the default level.
    DeflateFile(Vec<u8>),
    /// Write this document. The build is over.
    Finished(Vec<u8>),
    /// Report this error. The build is over.
    Failed(CompileError),
}

/// The value of a [`Request`].
pub enum Ask {
    LoadText(Seq<char>),
    CheckExists(Seq<char>),
    CreateOutput(Seq<char>),
    ReadFile(Seq<char>),
    ReadStdin,
    DeflateXml(Seq<u8>),
    DeflateFile(Seq<u8>),
    Finished(Seq<u8>),
    Failed(Failure),
}

impl View for Request {
    type V = Ask;

    open spec fn view(&self) -> Ask {
        match self {
            Request::LoadText(path) => Ask::LoadText(path@),
            Request::CheckExists(path) => Ask::CheckExists(path@),
            Request::CreateOutput(path) => Ask::CreateOutput(path@),
            Request::ReadFile(path) => Ask::ReadFile(path@),
            Request::ReadStdin => Ask::ReadStdin,
            Request::DeflateXml(data) => Ask::DeflateXml(data@),
            Request::DeflateFile(data) => Ask::DeflateFile(data@),
            Request::Finished(document) => Ask::Finished(document@),
            Request::Failed(error) => Ask::Failed(error@),
        }
    }
}

/// What a host answers.
pub enum Reply {
    /// Whether the file exists.
    Exists(bool),
    /// The output was created.
    Created,
    /// What was read, if it could be read.
    Contents(Option<Vec<u8>>),
    /// What was compressed.
    Compressed(Deflated),
}

/// The value of a [`Reply`].
pub enum Answer {
    Exists(bool),
    Created,
    Contents(Option<Seq<u8>>),
    Compressed(Seq<u8>, i32),
}

impl View for Reply {
    type V = Answer;

    open spec fn view(&self) -> Answer {
        match self {
            Reply::Exists(found) => Answer::Exists(*found),
            Reply::Created => Answer::Created,
            Reply::Contents(Some(contents)) => Answer::Contents(Some(contents@)),
            Reply::Contents(None) => Answer::Contents(None),
            Reply::Compressed(deflated) => Answer::Compressed(deflated.bytes@, deflated.data_type),
        }
    }
}

/// What a build is waiting for.
enum Stage {
    /// For the text file.
    Loading,
    /// For whether this file exists.
    Checking(usize),
    /// For the output.
    Creating,
    /// For the contents of the current input file.
    Reading,
    /// For the compressed problem that gets this name.
    Sealing(String),
    /// For the compressed form of this file.
    Packing(String, Vec<u8>),
    /// For nothing: it is working.
    Ready,
    /// For nothing: it has ended.
    Over,
}

/// The value of a stage.
pub enum Phase {
    Ready,
    Loading,
    Checking(nat),
    Creating,
    Reading,
    Sealing(Seq<char>),
    Packing(Seq<char>, Seq<u8>),
    Over,
}

impl View for Stage {
    type V = Phase;

    closed spec fn view(&self) -> Phase {
        match self {
            Stage::Loading => Phase::Loading,
            Stage::Checking(i) => Phase::Checking(*i as nat),
            Stage::Creating => Phase::Creating,
            Stage::Reading => Phase::Reading,
            Stage::Sealing(name) => Phase::Sealing(name@),
            Stage::Packing(name, data) => Phase::Packing(name@, data@),
            Stage::Ready => Phase::Ready,
            Stage::Over => Phase::Over,
        }
    }
}

/// The value of a [`Build`].
pub struct State {
    pub plan: Plan,
    /// How many parts are in the document.
    pub part: nat,
    pub phase: Phase,
    /// The members of the document.
    pub members: Seq<Member>,
}

/// Compressed problems are encrypted and get a header.
pub open spec fn sealed(deflated: Seq<u8>) -> Seq<u8> {
    tien_header() + crypted(deflated)
}

impl State {
    /// The same state in another phase.
    pub open spec fn in_phase(self, phase: Phase) -> State {
        State { phase, ..self }
    }

    /// The build ends with an error.
    pub open spec fn fail(self, failure: Failure) -> (State, Ask) {
        (self.in_phase(Phase::Over), Ask::Failed(failure))
    }

    /// The state after a file was added to the document.
    pub open spec fn with_member(
        self,
        name: Seq<char>,
        data: Seq<u8>,
        deflated: Seq<u8>,
        data_type: i32,
    ) -> State {
        State {
            part: self.part + 1,
            members: self.members.push(
                member_of(name, data, self.plan.tiversion, deflated, data_type),
            ),
            ..self
        }
    }

    /// The build ends: it hands over the document and keeps nothing of it.
    pub open spec fn finish(self) -> (State, Ask) {
        (
            State { phase: Phase::Over, members: Seq::empty(), ..self },
            Ask::Finished(archive_of(0, self.members)),
        )
    }

    /// Checks for the files that have to exist from number `i` on, then
    /// creates the output.
    pub open spec fn check_from(self, i: nat) -> (State, Ask) {
        if i < self.plan.must_exist.len() {
            (self.in_phase(Phase::Checking(i)), Ask::CheckExists(self.plan.must_exist[i as int]))
        } else {
            (self.in_phase(Phase::Creating), Ask::CreateOutput(self.plan.output))
        }
    }

    /// Adds a problem: it is compressed first.
    pub open spec fn seal(self, name: Seq<char>, xmlc: Seq<u8>) -> (State, Ask) {
        (self.in_phase(Phase::Sealing(name)), Ask::DeflateXml(xmlc))
    }

    /// Adds a file, which is compressed first if its kind is, and goes on.
    pub open spec fn pack(self, name: Seq<char>, data: Seq<u8>) -> (State, Ask)
        decreases self.plan.parts.len() - self.part, 0int,
        when self.part < self.plan.parts.len()
    {
        if method_of(name) == METHOD_DEFLATED {
            (self.in_phase(Phase::Packing(name, data)), Ask::DeflateFile(data))
        } else {
            self.with_member(name, data, Seq::empty(), 0).advance()
        }
    }

    /// Goes on with the current part, or ends the document.
    pub open spec fn advance(self) -> (State, Ask)
        decreases self.plan.parts.len() - self.part, 1int,
        when self.part <= self.plan.parts.len()
    {
        if self.part >= self.plan.parts.len() {
            self.finish()
        } else {
            match self.plan.parts[self.part as int] {
                PartView::DefaultDocument => self.pack(
                    "Document.xml"@,
                    default_document(),
                ),
                PartView::PythonProblem(path) => {
                    let name = encode_utf8(basename(path));
                    if name.len() > MAX_PYTHON_NAME {
                        self.fail(Failure::FilenameTooLong)
                    } else {
                        self.seal("Problem1.xml"@, python_problem(name))
                    }
                },
                PartView::InputFile(path) => (
                    self.in_phase(Phase::Reading),
                    if path == "-"@ {
                        Ask::ReadStdin
                    } else {
                        Ask::ReadFile(path)
                    },
                ),
                PartView::XmlProblem(xml) => match xml_problem(xml) {
                    Some(xmlc) => self.seal("Problem1.xml"@, xmlc),
                    None => self.fail(Failure::BadXml),
                },
            }
        }
    }

    /// Goes on with the contents of the input file at `path`.
    pub open spec fn add_input(self, path: Seq<char>, contents: Option<Seq<u8>>) -> (State, Ask) {
        match contents {
            Some(contents) => match problem_data(path, contents) {
                Some(data) => {
                    let name = problem_filename(path);
                    if has_extension(name, ".xml"@) {
                        self.seal(name, data)
                    } else {
                        self.pack(name, data)
                    }
                },
                None => self.fail(Failure::Unreadable),
            },
            None => self.fail(Failure::Unreadable),
        }
    }

    /// Whether the answer is one to what was asked. The last four bytes of the
    /// path of an input file have to be whole characters.
    pub open spec fn expects(self, answer: Answer) -> bool {
        match (self.phase, answer) {
            (Phase::Loading, Answer::Contents(Some(_))) => true,
            (Phase::Checking(_), Answer::Exists(_)) => true,
            (Phase::Creating, Answer::Created) => true,
            (Phase::Reading, Answer::Contents(_)) => splits_before_last(self.current_path(), 4),
            (Phase::Sealing(_), Answer::Compressed(_, _)) => true,
            (Phase::Packing(_, _), Answer::Compressed(_, _)) => true,
            _ => false,
        }
    }

    /// The path of the input file that is the current part.
    pub open spec fn current_path(self) -> Seq<char> {
        self.plan.parts[self.part as int]->InputFile_0
    }

    /// The state and the request that the answer leads to.
    pub open spec fn answered(self, answer: Answer) -> (State, Ask) {
        let ready = self.in_phase(Phase::Ready);
        match (self.phase, answer) {
            (Phase::Loading, Answer::Contents(Some(xml))) => ready.with_problem(xml).check_from(0),
            (Phase::Checking(i), Answer::Exists(found)) => if found {
                ready.check_from(i + 1)
            } else {
                ready.fail(Failure::NotFound(self.plan.must_exist[i as int]))
            },
            (Phase::Creating, Answer::Created) => ready.advance(),
            (Phase::Reading, Answer::Contents(contents)) => ready.add_input(
                self.current_path(),
                contents,
            ),
            (Phase::Sealing(name), Answer::Compressed(deflated, _)) => ready.pack(
                name,
                sealed(deflated),
            ),
            (Phase::Packing(name, data), Answer::Compressed(deflated, data_type)) =>
            ready.with_member(name, data, deflated, data_type).advance(),
            _ => ready.fail(Failure::Unreadable),
        }
    }

    /// The state after the text file was read: its problem is the last part.
    pub open spec fn with_problem(self, xml: Seq<u8>) -> State {
        State {
            plan: Plan {
                load: None,
                parts: self.plan.parts.push(PartView::XmlProblem(xml)),
                ..self.plan
            },
            ..self
        }
    }

    /// Whether the phase fits the rest of the state.
    pub open spec fn consistent(self) -> bool {
        &&& self.part <= self.plan.parts.len()
        &&& match self.phase {
            Phase::Checking(i) => i < self.plan.must_exist.len(),
            Phase::Reading => self.part < self.plan.parts.len()
                && self.plan.parts[self.part as int] is InputFile,
            Phase::Sealing(_) => self.part < self.plan.parts.len(),
            Phase::Packing(_, _) => self.part < self.plan.parts.len(),
            _ => true,
        }
    }
}

/// The state and the request that a build starts with.
pub open spec fn begun(plan: Plan) -> (State, Ask) {
    let state = State { plan, part: 0, phase: Phase::Ready, members: Seq::empty() };
    match plan.load {
        Some(path) => (state.in_phase(Phase::Loading), Ask::LoadText(path)),
        None => state.check_from(0),
    }
}

/// A document that is being compiled.
pub struct Build {
    job: Job,
    part: usize,
    stage: Stage,
    writer: TiZipWriter,
}

impl View for Build {
    type V = State;

    closed spec fn view(&self) -> State {
        State {
            plan: self.job@,
            part: self.part as nat,
            phase: self.stage@,
            members: self.writer@,
        }
    }
}

impl Build {
    /// The document holds what the state says.
    pub closed spec fn wf(&self) -> bool {
        &&& self.writer.wf()
        &&& self.writer.origin() == 0
        &&& self@.consistent()
    }

    /// Starts to carry out a job. Gives the first request.
    pub fn start(job: Job) -> (r: (Build, Request))
        ensures
            r.0.wf(),
            (r.0@, r.1@) == begun(job@),
    {
        let first = match &job.load {
            Some(path) => Some(Request::LoadText(path.clone())),
            None => None,
        };
        let writer = TiZipWriter::new(0);
        match first {
            Some(request) => (Build { job, part: 0, stage: Stage::Loading, writer }, request),
            None => Build { job, part: 0, stage: Stage::Ready, writer }.check_from(0),
        }
    }

    /// The part of the document that is written.
    pub fn written(&self) -> (r: &Vec<u8>)
        requires
            self.wf(),
        ensures
            r@ == image_of(self@.members),
    {
        self.writer.written()
    }

    /// Goes on with the host's answer to the last request. Gives the next one.
    pub fn resume(self, reply: Reply) -> (r: (Build, Request))
        requires
            self.wf(),
            self@.expects(reply@),
        ensures
            r.0.wf(),
            (r.0@, r.1@) == self@.answered(reply@),
    {
        let ghost before = self@;
        let Build { job, part, stage, writer } = self;
        match (stage, reply) {
            (Stage::Loading, Reply::Contents(Some(xml))) => {
                let Job { load: _, must_exist, output, parts, tiversion } = job;
                let mut all = parts;
                all.push(Part::XmlProblem(xml));
                let loaded = Job { load: None, must_exist, output, parts: all, tiversion };
                assert(loaded@.parts =~= before.plan.parts.push(PartView::XmlProblem(xml@)));
                Build { job: loaded, part, stage: Stage::Ready, writer }.check_from(0)
            },
            (Stage::Checking(i), Reply::Exists(found)) => {
                assert(i < job.must_exist.len());
                if found {
                    Build { job, part, stage: Stage::Ready, writer }.check_from(i + 1)
                } else {
                    let path = job.must_exist[i].clone();
                    (
                        Build { job, part, stage: Stage::Over, writer },
                        Request::Failed(CompileError::NotFound(path)),
                    )
                }
            },
            (Stage::Creating, Reply::Created) => {
                Build { job, part, stage: Stage::Ready, writer }.advance()
            },
            (Stage::Reading, Reply::Contents(contents)) => {
                Build { job, part, stage: Stage::Ready, writer }.add_infile_to_tns(contents)
            },
            (Stage::Sealing(name), Reply::Compressed(deflated)) => {
                Build { job, part, stage: Stage::Ready, writer }.add_compressed_xml_to_tns(
                    name,
                    deflated.bytes,
                )
            },
            (Stage::Packing(name, data), Reply::Compressed(deflated)) => {
                Build { job, part, stage: Stage::Ready, writer }.add_packed(
                    name,
                    data,
                    deflated,
                ).advance()
            },
            _ => {
                assert(false);
                (
                    Build { job, part, stage: Stage::Over, writer },
                    Request::Failed(CompileError::Unreadable),
                )
            },
        }
    }

    /// The same build in another stage.
    fn in_stage(self, stage: Stage) -> (r: Build)
        ensures
            r.writer == self.writer,
            r@ == self@.in_phase(stage@),
    {
        Build { job: self.job, part: self.part, stage, writer: self.writer }
    }

    /// Checks for the files that have to exist from number `i` on.
    fn check_from(self, i: usize) -> (r: (Build, Request))
        requires
            self.wf(),
        ensures
            r.0.wf(),
            (r.0@, r.1@) == self@.check_from(i as nat),
    {
        if i < self.job.must_exist.len() {
            let path = self.job.must_exist[i].clone();
            (self.in_stage(Stage::Checking(i)), Request::CheckExists(path))
        } else {
            let output = self.job.output.clone();
            (self.in_stage(Stage::Creating), Request::CreateOutput(output))
        }
    }

    /// Puts a file into the document.
    fn add_packed(self, name: String, data: Vec<u8>, deflated: Deflated) -> (r: Build)
        requires
            self.wf(),
            self@.phase is Ready,
            self@.part < self@.plan.parts.len(),
        ensures
            r.wf(),
            r@ == self@.with_member(name@, data@, deflated.bytes@, deflated.data_type),
    {
        let Build { job, part, stage, writer } = self;
        let mut writer = writer;
        proof {
            writer.lemma_position();
        }
        writer.add_processed_file(name.as_str(), data.as_slice(), job.tiversion, &deflated);
        assert(part < job.parts.len());
        Build { job, part: part + 1, stage, writer }
    }

    /// Adds a file, which is compressed first if its kind is, and goes on.
    fn pack(self, name: String, data: Vec<u8>) -> (r: (Build, Request))
        requires
            self.wf(),
            self@.phase is Ready,
            self@.part < self@.plan.parts.len(),
        ensures
            r.0.wf(),
            (r.0@, r.1@) == self@.pack(name@, data@),
        decreases self@.plan.parts.len() - self@.part, 0int,
    {
        if is_compressed(name.as_str()) {
            let copy = copy_bytes(data.as_slice());
            (self.in_stage(Stage::Packing(name, data)), Request::DeflateFile(copy))
        } else {
            let nothing = Deflated { bytes: Vec::new(), data_type: 0 };
            self.add_packed(name, data, nothing).advance()
        }
    }

    /// Goes on with the current part, or ends the document.
    fn advance(self) -> (r: (Build, Request))
        requires
            self.wf(),
            self@.phase is Ready,
        ensures
            r.0.wf(),
            (r.0@, r.1@) == self@.advance(),
        decreases self@.plan.parts.len() - self@.part, 2int,
    {
        if self.part >= self.job.parts.len() {
            return self.finish();
        }
        assert(self@.plan.parts[self@.part as int] == self.job.parts@[self.part as int]@);
        match &self.job.parts[self.part] {
            Part::DefaultDocument => { self.add_default_document_to_tns() },
            Part::PythonProblem(path) => {
                match python_xml(path.as_str()) {
                    Ok(xmlc) => {
                        let name = "Problem1.xml".to_owned();
                        (self.in_stage(Stage::Sealing(name)), Request::DeflateXml(xmlc))
                    },
                    Err(error) => (self.in_stage(Stage::Over), Request::Failed(error)),
                }
            },
            Part::InputFile(path) => {
                let request = if str_equal(path.as_str(), "-") {
                    Request::ReadStdin
                } else {
                    Request::ReadFile(path.clone())
                };
                (self.in_stage(Stage::Reading), request)
            },
            Part::XmlProblem(xml) => {
                let mut name = String::new();
                match read_file_and_xml_compress_bytes(xml.as_slice(), &mut name) {
                    Some(xmlc) => {
                        (self.in_stage(Stage::Sealing(name)), Request::DeflateXml(xmlc))
                    },
                    None => {
                        (self.in_stage(Stage::Over), Request::Failed(CompileError::BadXml))
                    },
                }
            },
        }
    }

    /// Adds the `Document.xml` that every document starts with.
    fn add_default_document_to_tns(self) -> (r: (Build, Request))
        requires
            self.wf(),
            self@.phase is Ready,
            self@.part < self@.plan.parts.len(),
        ensures
            r.0.wf(),
            (r.0@, r.1@) == self@.pack("Document.xml"@, default_document()),
        decreases self@.plan.parts.len() - self@.part, 1int,
    {
        let mut data: Vec<u8> = Vec::new();
        append_default_document(&mut data);
        assert(data@ =~= default_document());
        self.pack("Document.xml".to_owned(), data)
    }

    /// Ends the document.
    fn finish(self) -> (r: (Build, Request))
        requires
            self.wf(),
        ensures
            r.0.wf(),
            (r.0@, r.1@) == self@.finish(),
    {
        let Build { job, part, stage: _, writer } = self;
        proof {
            writer.lemma_position();
        }
        let document = writer.close();
        (
            Build { job, part, stage: Stage::Over, writer: TiZipWriter::new(0) },
            Request::Finished(document),
        )
    }

    /// Adds a problem that was compressed.
    fn add_compressed_xml_to_tns(self, name: String, def_buf: Vec<u8>) -> (r: (Build, Request))
        requires
            self.wf(),
            self@.phase is Ready,
            self@.part < self@.plan.parts.len(),
        ensures
            r.0.wf(),
            (r.0@, r.1@) == self@.pack(name@, sealed(def_buf@)),
    {
        self.pack(name, seal(def_buf))
    }

    /// Adds the input file that is the current part.
    fn add_infile_to_tns(self, contents: Option<Vec<u8>>) -> (r: (Build, Request))
        requires
            self.wf(),
            self@.phase is Ready,
            self@.part < self@.plan.parts.len(),
            self@.plan.parts[self@.part as int] is InputFile,
            splits_before_last(self@.current_path(), 4),
        ensures
            r.0.wf(),
            (r.0@, r.1@) == self@.add_input(
                self@.current_path(),
                match contents {
                    Some(c) => Some(c@),
                    None => None,
                },
            ),
    {
        let mut name = String::new();
        assert(self@.plan.parts[self@.part as int] == self.job.parts@[self.part as int]@);
        let data = match &self.job.parts[self.part] {
            Part::InputFile(path) => {
                proof {
                    lemma_problem_filename_splits(path@);
                    lemma_extension_len();
                }
                read_file_and_xml_compress(path.as_str(), contents, &mut name)
            },
            _ => None,
        };
        match data {
            Some(data) => {
                if has_ext(name.as_str(), ".xml") {
                    (self.in_stage(Stage::Sealing(name)), Request::DeflateXml(data))
                } else {
                    self.pack(name, data)
                }
            },
            None => (self.in_stage(Stage::Over), Request::Failed(CompileError::Unreadable)),
        }
    }
}

/// Tests whether a file is compressed in a document.
fn is_compressed(name: &str) -> (r: bool)
    ensures
        r == (method_of(name@) == METHOD_DEFLATED),
{
    !lowercase_ends_with(name, ".xml") && !names_bitmap(name)
}

/// Encrypts a compressed problem and puts the header in front.
pub fn seal(def_buf: Vec<u8>) -> (r: Vec<u8>)
    ensures
        r@ == sealed(def_buf@),
{
    let mut body = def_buf;
    doccrypt(body.as_mut_slice());
    let mut out: Vec<u8> = Vec::new();
    append_tien_header(&mut out);
    append_bytes(&mut out, body.as_slice());
    assert(out@ =~= sealed(def_buf@));
    out
}

/// The problem that shows the Python script at `python_path`.
pub fn python_xml(python_path: &str) -> (r: Result<Vec<u8>, CompileError>)
    ensures
        match r {
            Ok(xmlc) => encode_utf8(basename(python_path@)).len() <= MAX_PYTHON_NAME && xmlc@
                == python_problem(encode_utf8(basename(python_path@))),
            Err(error) => encode_utf8(basename(python_path@)).len() > MAX_PYTHON_NAME && error@
                == Failure::FilenameTooLong,
        },
{
    let filename = gnu_basename(python_path).as_bytes();
    if filename.len() > MAX_PYTHON_NAME {
        return Err(CompileError::FilenameTooLong);
    }
    let mut xmlc: Vec<u8> = Vec::new();
    append_python_header(&mut xmlc);
    append_bytes(&mut xmlc, filename);
    append_python_footer(&mut xmlc);
    assert(xmlc@ =~= python_problem(filename@));
    Ok(xmlc)
}

/// Where the last four bytes of a path are whole characters, those of its name
/// in the document are too.
proof fn lemma_problem_filename_splits(path: Seq<char>)
    requires
        splits_before_last(path, 4),
    ensures
        splits_before_last(problem_filename(path), 4),
{
    lemma_basename_splits_before_last(path, 4);
    reveal_strlit("Problem1.xml");
    lemma_ascii_splits("Problem1.xml"@, 4);
}

} // verus!
