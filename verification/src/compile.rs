//! Compiles source files into documents.
//!
//! What has to be done is a [`Job`]. A [`Build`](crate::assembly::Build)
//! carries it out: it asks its host for files and for compression, one request
//! at a time, and goes on with the reply.

use vstd::prelude::*;
use vstd::string::*;
use vstd::utf8::{encode_utf8, is_ascii_chars};

use crate::bytes::copy_bytes;
use crate::text::{ascii_lowercase, is_bitmap, lowercase};
use crate::text::{names_bitmap, str_equal};

verus! {

/// The version in the signature of a document.
pub const TIVERSION: u32 = 0x0500;

/// The version in the signature of a document with bitmaps.
pub const TIVERSION_BITMAP: u32 = 0x0700;

/// How many bytes the name of a Python script may take.
pub const MAX_PYTHON_NAME: usize = 240;

/// What stands before the text of a note.
pub const NOTES_PREFIX: &'static str = "<?xml version=\"1.0\" encoding=\"UTF-8\"?>\n<prob>\n  <ProblemID>1</ProblemID>\n  <Page>\n    <PageID>1</PageID>\n    <Notes>\n      <Text><![CDATA[";

/// What stands behind the text of a note.
pub const NOTES_SUFFIX: &'static str = "]]></Text>\n    </Notes>\n  </Page>\n</prob>";

/// Why a document could not be compiled.
pub enum CompileError {
    /// An input file does not exist.
    NotFound(String),
    /// An input file could not be read or is no valid problem XML.
    Unreadable,
    /// The XML that was given is no valid problem XML.
    BadXml,
    /// The name of the Python script is too long.
    FilenameTooLong,
    /// There is no such kind of source.
    UnknownSourceType(String),
}

/// The value of a [`CompileError`].
pub enum Failure {
    NotFound(Seq<char>),
    Unreadable,
    BadXml,
    FilenameTooLong,
    UnknownSourceType(Seq<char>),
}

impl View for CompileError {
    type V = Failure;

    open spec fn view(&self) -> Failure {
        match self {
            CompileError::NotFound(path) => Failure::NotFound(path@),
            CompileError::Unreadable => Failure::Unreadable,
            CompileError::BadXml => Failure::BadXml,
            CompileError::FilenameTooLong => Failure::FilenameTooLong,
            CompileError::UnknownSourceType(name) => Failure::UnknownSourceType(name@),
        }
    }
}

/// The kinds of errors.
#[derive(PartialEq, Eq, Structural, Clone, Copy, Debug)]
pub enum ErrorKind {
    NotFound,
    InvalidInput,
    InvalidData,
}

impl Failure {
    /// The kind of the error.
    pub open spec fn kind(self) -> ErrorKind {
        match self {
            Failure::NotFound(_) => ErrorKind::NotFound,
            Failure::Unreadable => ErrorKind::InvalidData,
            Failure::BadXml => ErrorKind::InvalidData,
            Failure::FilenameTooLong => ErrorKind::InvalidInput,
            Failure::UnknownSourceType(_) => ErrorKind::InvalidInput,
        }
    }

    /// The text of the error.
    pub open spec fn message(self) -> Seq<char> {
        match self {
            Failure::NotFound(path) => "Input file not found: "@ + path,
            Failure::Unreadable => "failed to read and compress file"@,
            Failure::BadXml => "failed to process XML content"@,
            Failure::FilenameTooLong => "filename too long"@,
            Failure::UnknownSourceType(name) => "Unknown source type: "@ + name,
        }
    }
}

impl CompileError {
    /// The kind of the error.
    pub fn kind(&self) -> (r: ErrorKind)
        ensures
            r == self@.kind(),
    {
        match self {
            CompileError::NotFound(_) => ErrorKind::NotFound,
            CompileError::Unreadable => ErrorKind::InvalidData,
            CompileError::BadXml => ErrorKind::InvalidData,
            CompileError::FilenameTooLong => ErrorKind::InvalidInput,
            CompileError::UnknownSourceType(_) => ErrorKind::InvalidInput,
        }
    }

    /// The text of the error.
    pub fn message(&self) -> (r: String)
        ensures
            r@ == self@.message(),
    {
        match self {
            CompileError::NotFound(path) => "Input file not found: ".to_owned().concat(
                path.as_str(),
            ),
            CompileError::Unreadable => "failed to read and compress file".to_owned(),
            CompileError::BadXml => "failed to process XML content".to_owned(),
            CompileError::FilenameTooLong => "filename too long".to_owned(),
            CompileError::UnknownSourceType(name) => "Unknown source type: ".to_owned().concat(
                name.as_str(),
            ),
        }
    }
}

/// Something that goes into a document.
pub enum Part {
    /// The `Document.xml` that every document starts with.
    DefaultDocument,
    /// The problem that shows the Python script at this path.
    PythonProblem(String),
    /// The file at this path.
    InputFile(String),
    /// The problem that this XML becomes.
    XmlProblem(Vec<u8>),
}

/// The value of a [`Part`].
pub enum PartView {
    DefaultDocument,
    PythonProblem(Seq<char>),
    InputFile(Seq<char>),
    XmlProblem(Seq<u8>),
}

impl View for Part {
    type V = PartView;

    open spec fn view(&self) -> PartView {
        match self {
            Part::DefaultDocument => PartView::DefaultDocument,
            Part::PythonProblem(path) => PartView::PythonProblem(path@),
            Part::InputFile(path) => PartView::InputFile(path@),
            Part::XmlProblem(xml) => PartView::XmlProblem(xml@),
        }
    }
}

/// The values of some paths.
pub open spec fn path_views(paths: Seq<String>) -> Seq<Seq<char>> {
    Seq::new(paths.len(), |i: int| paths[i]@)
}

/// The values of some parts.
pub open spec fn part_views(parts: Seq<Part>) -> Seq<PartView> {
    Seq::new(parts.len(), |i: int| parts[i]@)
}

/// The files at `paths` as parts.
pub open spec fn file_parts(paths: Seq<Seq<char>>) -> Seq<PartView> {
    Seq::new(paths.len(), |i: int| PartView::InputFile(paths[i]))
}

/// What it takes to compile a document.
pub struct Job {
    /// A text file to read before anything else; its problem becomes the last
    /// part.
    pub load: Option<String>,
    /// The files that have to exist.
    pub must_exist: Vec<String>,
    /// Where the document goes.
    pub output: String,
    /// What goes into the document.
    pub parts: Vec<Part>,
    /// The version in the signature of the document.
    pub tiversion: u32,
}

/// The value of a [`Job`].
pub struct Plan {
    pub load: Option<Seq<char>>,
    pub must_exist: Seq<Seq<char>>,
    pub output: Seq<char>,
    pub parts: Seq<PartView>,
    pub tiversion: u32,
}

impl View for Job {
    type V = Plan;

    open spec fn view(&self) -> Plan {
        Plan {
            load: match self.load {
                Some(path) => Some(path@),
                None => None,
            },
            must_exist: path_views(self.must_exist@),
            output: self.output@,
            parts: part_views(self.parts@),
            tiversion: self.tiversion,
        }
    }
}

/// The version for a document that is made of the files `paths`.
pub open spec fn tiversion_for(paths: Seq<Seq<char>>) -> u32 {
    if exists|i: int| 0 <= i < paths.len() && is_bitmap(#[trigger] paths[i]) {
        TIVERSION_BITMAP
    } else {
        TIVERSION
    }
}

/// How a Lua script, or another single file, is compiled.
pub open spec fn lua_plan(input: Seq<char>, output: Seq<char>) -> Plan {
    Plan {
        load: None,
        must_exist: if input == "-"@ {
            Seq::empty()
        } else {
            seq![input]
        },
        output,
        parts: seq![PartView::DefaultDocument, PartView::InputFile(input)],
        tiversion: tiversion_for(seq![input]),
    }
}

/// How Python scripts are compiled: the first is the one that is shown.
pub open spec fn python_plan(inputs: Seq<Seq<char>>, output: Seq<char>) -> Plan {
    let files = file_parts(inputs);
    Plan {
        load: None,
        must_exist: inputs,
        output,
        parts: seq![PartView::DefaultDocument] + (if inputs.len() == 0 {
            files
        } else {
            seq![PartView::PythonProblem(inputs[0])] + files
        }),
        tiversion: tiversion_for(inputs),
    }
}

/// How XML is compiled.
pub open spec fn notes_xml_plan(xml: Seq<u8>, output: Seq<char>) -> Plan {
    Plan {
        load: None,
        must_exist: Seq::empty(),
        output,
        parts: seq![PartView::DefaultDocument, PartView::XmlProblem(xml)],
        tiversion: TIVERSION,
    }
}

/// How an XML file is compiled.
pub open spec fn notes_file_plan(input: Seq<char>, output: Seq<char>) -> Plan {
    Plan {
        load: Some(input),
        must_exist: Seq::empty(),
        output,
        parts: seq![PartView::DefaultDocument],
        tiversion: TIVERSION,
    }
}

/// The XML of a note.
pub open spec fn notes_xml(text: Seq<char>) -> Seq<char> {
    NOTES_PREFIX@ + text + NOTES_SUFFIX@
}

/// How a source of the named kind is compiled.
pub open spec fn compile_plan(
    source_type: Seq<char>,
    input: Seq<char>,
    output: Seq<char>,
) -> Result<Plan, Failure> {
    let kind = lowercase(source_type);
    if kind == "lua"@ {
        Ok(lua_plan(input, output))
    } else if kind == "py"@ || kind == "python"@ {
        Ok(python_plan(seq![input], output))
    } else if kind == "xml"@ || kind == "notes"@ {
        Ok(notes_file_plan(input, output))
    } else {
        Err(Failure::UnknownSourceType(source_type))
    }
}

/// Compiles a Lua source file.
pub fn compile_lua(input_path: &str, output_path: &str) -> (r: Job)
    ensures
        r@ == lua_plan(input_path@, output_path@),
        r.output@ == output_path@,
{
    let mut must_exist: Vec<String> = Vec::new();
    if !str_equal(input_path, "-") {
        must_exist.push(input_path.to_owned());
    }
    let tiversion: u32 = if names_bitmap(input_path) {
        TIVERSION_BITMAP
    } else {
        TIVERSION
    };
    let mut parts: Vec<Part> = Vec::new();
    parts.push(Part::DefaultDocument);
    parts.push(Part::InputFile(input_path.to_owned()));
    let job = Job { load: None, must_exist, output: output_path.to_owned(), parts, tiversion };
    proof {
        let plan = lua_plan(input_path@, output_path@);
        assert(job@.must_exist =~= plan.must_exist);
        assert(job@.parts =~= plan.parts);
        assert(seq![input_path@][0] == input_path@);
    }
    job
}

/// Compiles one or more Python source files.
pub fn compile_python(input_paths: &[String], output_path: &str) -> (r: Job)
    ensures
        r@ == python_plan(path_views(input_paths@), output_path@),
        r.output@ == output_path@,
{
    let ghost inputs = path_views(input_paths@);
    let mut must_exist: Vec<String> = Vec::new();
    let mut parts: Vec<Part> = Vec::new();
    parts.push(Part::DefaultDocument);
    if input_paths.len() > 0 {
        parts.push(Part::PythonProblem(input_paths[0].clone()));
    }
    let ghost front = part_views(parts@);
    let mut bitmap = false;
    let mut i: usize = 0;
    assert(front =~= front + file_parts(inputs.take(0)));
    while i < input_paths.len()
        invariant
            i <= input_paths@.len(),
            inputs == path_views(input_paths@),
            path_views(must_exist@) == inputs.take(i as int),
            part_views(parts@) == front + file_parts(inputs.take(i as int)),
            bitmap == exists|j: int| 0 <= j < i && is_bitmap(#[trigger] inputs[j]),
        decreases input_paths.len() - i,
    {
        let path = input_paths[i].as_str();
        assert(path@ == inputs[i as int]);
        if names_bitmap(path) {
            bitmap = true;
        }
        let ghost before = parts@;
        must_exist.push(path.to_owned());
        parts.push(Part::InputFile(path.to_owned()));
        i = i + 1;
        proof {
            assert(inputs.take(i as int) =~= inputs.take(i - 1).push(inputs[i - 1]));
            assert(path_views(must_exist@) =~= inputs.take(i as int));
            assert(part_views(parts@) =~= part_views(before).push(
                PartView::InputFile(inputs[i - 1]),
            ));
            assert(file_parts(inputs.take(i as int)) =~= file_parts(inputs.take(i - 1)).push(
                PartView::InputFile(inputs[i - 1]),
            ));
            assert(part_views(parts@) =~= front + file_parts(inputs.take(i as int)));
        }
    }
    let tiversion: u32 = if bitmap {
        TIVERSION_BITMAP
    } else {
        TIVERSION
    };
    let job = Job { load: None, must_exist, output: output_path.to_owned(), parts, tiversion };
    proof {
        let plan = python_plan(inputs, output_path@);
        assert(inputs.take(i as int) =~= inputs);
        assert(job@.must_exist =~= plan.must_exist);
        assert(job@.parts =~= plan.parts);
    }
    job
}

/// Compiles problem XML.
pub fn compile_notes_xml(xml_content: &str, output_path: &str) -> (r: Job)
    ensures
        r@ == notes_xml_plan(encode_utf8(xml_content@), output_path@),
        r.output@ == output_path@,
{
    let mut parts: Vec<Part> = Vec::new();
    parts.push(Part::DefaultDocument);
    parts.push(Part::XmlProblem(copy_bytes(xml_content.as_bytes())));
    let job = Job {
        load: None,
        must_exist: Vec::new(),
        output: output_path.to_owned(),
        parts,
        tiversion: TIVERSION,
    };
    proof {
        let plan = notes_xml_plan(encode_utf8(xml_content@), output_path@);
        assert(job@.must_exist =~= plan.must_exist);
        assert(job@.parts =~= plan.parts);
    }
    job
}

/// Compiles the text of a note.
pub fn compile_notes(text: &str, output_path: &str) -> (r: Job)
    ensures
        r@ == notes_xml_plan(encode_utf8(notes_xml(text@)), output_path@),
        r.output@ == output_path@,
{
    let xml = NOTES_PREFIX.to_owned().concat(text).concat(NOTES_SUFFIX);
    compile_notes_xml(xml.as_str(), output_path)
}

/// Compiles a source of the kind that `source_type` names, in any letter case.
pub fn compile(source_type: &str, input_path: &str, output_path: &str) -> (r: Result<
    Job,
    CompileError,
>)
    ensures
        match r {
            Ok(job) => compile_plan(source_type@, input_path@, output_path@) == Ok::<
                Plan,
                Failure,
            >(job@) && job.output@ == output_path@,
            Err(error) => compile_plan(source_type@, input_path@, output_path@) == Err::<
                Plan,
                Failure,
            >(error@),
        },
{
    let kind = source_type.to_lowercase();
    if str_equal(kind.as_str(), "lua") {
        Ok(compile_lua(input_path, output_path))
    } else if str_equal(kind.as_str(), "py") || str_equal(kind.as_str(), "python") {
        let mut inputs: Vec<String> = Vec::new();
        inputs.push(input_path.to_owned());
        assert(path_views(inputs@) =~= seq![input_path@]);
        Ok(compile_python(inputs.as_slice(), output_path))
    } else if str_equal(kind.as_str(), "xml") || str_equal(kind.as_str(), "notes") {
        let mut parts: Vec<Part> = Vec::new();
        parts.push(Part::DefaultDocument);
        let job = Job {
            load: Some(input_path.to_owned()),
            must_exist: Vec::new(),
            output: output_path.to_owned(),
            parts,
            tiversion: TIVERSION,
        };
        proof {
            let plan = notes_file_plan(input_path@, output_path@);
            assert(job@.must_exist =~= plan.must_exist);
            assert(job@.parts =~= plan.parts);
        }
        Ok(job)
    } else {
        Err(CompileError::UnknownSourceType(source_type.to_owned()))
    }
}

/// Every plan that is made for an output creates that output.
pub proof fn law_output(
    source_type: Seq<char>,
    input: Seq<char>,
    inputs: Seq<Seq<char>>,
    xml: Seq<u8>,
    output: Seq<char>,
)
    ensures
        lua_plan(input, output).output == output,
        python_plan(inputs, output).output == output,
        notes_xml_plan(xml, output).output == output,
        notes_file_plan(input, output).output == output,
        compile_plan(source_type, input, output) matches Ok(plan) ==> plan.output == output,
{
}

/// The paths that a plan reads or looks for.
pub open spec fn reads(plan: Plan, path: Seq<char>) -> bool {
    ||| plan.load == Some(path)
    ||| plan.must_exist.contains(path)
    ||| plan.parts.contains(PartView::InputFile(path))
}

/// A source file is read from its own path and no other, whatever its kind.
pub proof fn law_input(source_type: Seq<char>, input: Seq<char>, output: Seq<char>, path: Seq<char>)
    ensures
        compile_plan(source_type, input, output) matches Ok(plan) ==> (reads(plan, path) <==> path
            == input),
{
    if let Ok(plan) = compile_plan(source_type, input, output) {
        let kind = lowercase(source_type);
        if kind == "lua"@ {
            assert(plan.parts[1] == PartView::InputFile(input));
        } else if kind == "py"@ || kind == "python"@ {
            assert(plan.parts[2] == PartView::InputFile(input));
            assert(forall|i: int|
                0 <= i < plan.parts.len() && #[trigger] plan.parts[i] == PartView::InputFile(path)
                    ==> path == input);
        }
    }
}

/// Python scripts are read from their paths and no other.
pub proof fn law_python_inputs(inputs: Seq<Seq<char>>, output: Seq<char>, path: Seq<char>)
    ensures
        reads(python_plan(inputs, output), path) <==> inputs.contains(path),
        forall|i: int|
            0 <= i < inputs.len() ==> python_plan(inputs, output).must_exist.contains(
                #[trigger] inputs[i],
            ),
{
    let plan = python_plan(inputs, output);
    let skipped: int = if inputs.len() == 0 {
        1
    } else {
        2
    };
    assert forall|i: int| skipped <= i < plan.parts.len() implies #[trigger] plan.parts[i]
        == PartView::InputFile(inputs[i - skipped]) by {}
    if plan.parts.contains(PartView::InputFile(path)) {
        let i = choose|i: int|
            0 <= i < plan.parts.len() && plan.parts[i] == PartView::InputFile(path);
        assert(i >= skipped);
        assert(inputs[i - skipped] == path);
    }
    assert(plan.must_exist == inputs);
}

/// The kinds of sources that there are, by the letters of their names in any
/// case: `lua`, `py`, `python`, `xml` and `notes`. Any other name, whatever the
/// paths, is an error that repeats the name.
pub proof fn law_kinds(source_type: Seq<char>, input: Seq<char>, output: Seq<char>)
    ensures
        ({
            let lower = lowercase(source_type);
            let lua = lower == seq!['l', 'u', 'a'];
            let python = lower == seq!['p', 'y'] || lower == seq!['p', 'y', 't', 'h', 'o', 'n'];
            let xml = lower == seq!['x', 'm', 'l'] || lower == seq!['n', 'o', 't', 'e', 's'];
            &&& is_ascii_chars(source_type) ==> lower == Seq::new(
                source_type.len(),
                |i: int| ascii_lowercase(source_type[i]),
            )
            &&& lua ==> compile_plan(source_type, input, output) == Ok::<Plan, Failure>(
                lua_plan(input, output),
            )
            &&& python ==> compile_plan(source_type, input, output) == Ok::<Plan, Failure>(
                python_plan(seq![input], output),
            )
            &&& xml ==> compile_plan(source_type, input, output) == Ok::<Plan, Failure>(
                notes_file_plan(input, output),
            )
            &&& !lua && !python && !xml ==> compile_plan(source_type, input, output) == Err::<
                Plan,
                Failure,
            >(Failure::UnknownSourceType(source_type))
        }),
{
    let lower = lowercase(source_type);
    if is_ascii_chars(source_type) {
        assert(lower =~= Seq::new(source_type.len(), |i: int| ascii_lowercase(source_type[i])));
    }
    reveal_strlit("lua");
    reveal_strlit("py");
    reveal_strlit("python");
    reveal_strlit("xml");
    reveal_strlit("notes");
    assert("lua"@ =~= seq!['l', 'u', 'a']);
    assert("py"@ =~= seq!['p', 'y']);
    assert("python"@ =~= seq!['p', 'y', 't', 'h', 'o', 'n']);
    assert("xml"@ =~= seq!['x', 'm', 'l']);
    assert("notes"@ =~= seq!['n', 'o', 't', 'e', 's']);
    assert(lower.len() == 3 ==> lower != "py"@ && lower != "python"@ && lower != "notes"@);
    assert("lua"@[0] == 'l' && "xml"@[0] == 'x');
}

/// An error that speaks of a path or a name repeats it at its end, and each has a
/// kind of its own.
pub proof fn law_messages(name: Seq<char>)
    ensures
        name.is_suffix_of(Failure::NotFound(name).message()),
        name.is_suffix_of(Failure::UnknownSourceType(name).message()),
        Failure::NotFound(name).kind() is NotFound,
        Failure::UnknownSourceType(name).kind() is InvalidInput,
        Failure::FilenameTooLong.kind() is InvalidInput,
        Failure::Unreadable.kind() is InvalidData,
        Failure::BadXml.kind() is InvalidData,
        Failure::NotFound(name).message().take(22) == "Input file not found: "@,
        Failure::NotFound(name).message().len() == name.len() + 22,
        Failure::UnknownSourceType(name).message().take(21) == "Unknown source type: "@,
        Failure::UnknownSourceType(name).message().len() == name.len() + 21,
{
    reveal_strlit("Input file not found: ");
    reveal_strlit("Unknown source type: ");
    assert(Failure::NotFound(name).message().take(22) =~= "Input file not found: "@);
    assert(Failure::UnknownSourceType(name).message().take(21) =~= "Unknown source type: "@);
}

/// A document has the later version if and only if one of its files is a bitmap.
pub proof fn law_versions(
    input: Seq<char>,
    inputs: Seq<Seq<char>>,
    xml: Seq<u8>,
    output: Seq<char>,
)
    ensures
        lua_plan(input, output).tiversion == if is_bitmap(input) {
            0x0700u32
        } else {
            0x0500
        },
        (exists|i: int| 0 <= i < inputs.len() && is_bitmap(#[trigger] inputs[i])) ==> python_plan(
            inputs,
            output,
        ).tiversion == 0x0700,
        (forall|i: int| 0 <= i < inputs.len() ==> !is_bitmap(#[trigger] inputs[i])) ==> python_plan(
            inputs,
            output,
        ).tiversion == 0x0500,
        notes_xml_plan(xml, output).tiversion == 0x0500,
        notes_file_plan(input, output).tiversion == 0x0500,
{
    assert(seq![input][0] == input);
}

} // verus!
