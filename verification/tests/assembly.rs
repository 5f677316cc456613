use luna_nspire::assembly::{python_xml, seal, Build, Reply, Request};
use luna_nspire::compile::{CompileError, Job};
use luna_nspire::doccrypt::doccrypt;
use luna_nspire::templates::{
    DEFAULT_PROCESSED_DOCUMENT_XML, LUA_FOOTER, LUA_HEADER, PYTHON_FOOTER, PYTHON_HEADER,
    TIEN_CRYPTED_HEADER,
};
use luna_nspire::zip_writer::{Deflated, TiZipWriter};
use luna_nspire::{compile, compile_lua, compile_notes, compile_notes_xml, compile_python};

/// The files of a host. Its compressor puts a byte in front.
struct Host {
    files: Vec<(&'static str, &'static [u8])>,
    stdin: Option<&'static [u8]>,
    log: Vec<String>,
}

fn host(files: Vec<(&'static str, &'static [u8])>) -> Host {
    Host { files, stdin: None, log: vec![] }
}

fn squeeze(kind: u8, data: &[u8]) -> Vec<u8> {
    let mut out = vec![kind];
    out.extend_from_slice(data);
    out
}

impl Host {
    fn find(&self, path: &str) -> Option<Vec<u8>> {
        self.files.iter().find(|(name, _)| *name == path).map(|(_, data)| data.to_vec())
    }

    fn run(&mut self, job: Job) -> Result<Vec<u8>, (CompileError, Vec<u8>)> {
        let (mut build, mut request) = Build::start(job);
        loop {
            let reply = match request {
                Request::LoadText(path) => {
                    self.log.push(format!("load {}", path));
                    Reply::Contents(Some(self.find(&path).unwrap()))
                }
                Request::CheckExists(path) => {
                    self.log.push(format!("exists {}", path));
                    Reply::Exists(self.find(&path).is_some())
                }
                Request::CreateOutput(path) => {
                    self.log.push(format!("create {}", path));
                    Reply::Created
                }
                Request::ReadFile(path) => {
                    self.log.push(format!("read {}", path));
                    Reply::Contents(self.find(&path))
                }
                Request::ReadStdin => {
                    self.log.push("stdin".to_string());
                    Reply::Contents(self.stdin.map(|data| data.to_vec()))
                }
                Request::DeflateXml(data) => {
                    self.log.push("deflate xml".to_string());
                    Reply::Compressed(Deflated { bytes: squeeze(1, &data), data_type: 1 })
                }
                Request::DeflateFile(data) => {
                    self.log.push("deflate file".to_string());
                    Reply::Compressed(Deflated { bytes: squeeze(2, &data), data_type: 1 })
                }
                Request::Finished(document) => return Ok(document),
                Request::Failed(error) => return Err((error, build.written().clone())),
            };
            let next = build.resume(reply);
            build = next.0;
            request = next.1;
        }
    }
}

/// The document with the given members behind `Document.xml`.
fn document(version: u32, members: &[(&str, Vec<u8>)]) -> Vec<u8> {
    let mut w = TiZipWriter::new(0);
    let none = Deflated { bytes: vec![], data_type: 0 };
    w.add_processed_file("Document.xml", &DEFAULT_PROCESSED_DOCUMENT_XML, version, &none);
    for (name, data) in members {
        let deflated = Deflated { bytes: squeeze(2, data), data_type: 1 };
        w.add_processed_file(name, data, version, &deflated);
    }
    w.close()
}

fn sealed(xmlc: &[u8]) -> Vec<u8> {
    seal(squeeze(1, xmlc))
}

fn lua_problem(script: &[u8]) -> Vec<u8> {
    let mut out = LUA_HEADER.to_vec();
    out.extend_from_slice(script);
    out.extend_from_slice(&LUA_FOOTER);
    out
}

fn python_problem(name: &[u8]) -> Vec<u8> {
    let mut out = PYTHON_HEADER.to_vec();
    out.extend_from_slice(name);
    out.extend_from_slice(&PYTHON_FOOTER);
    out
}

#[test]
fn a_lua_document() {
    let mut h = host(vec![("d/a.lua", b"print(1)")]);
    let out = h.run(compile_lua("d/a.lua", "a.tns")).ok().unwrap();
    assert_eq!(h.log, vec!["exists d/a.lua", "create a.tns", "read d/a.lua", "deflate xml"]);
    let problem = sealed(&lua_problem(b"print(1)"));
    assert_eq!(out, document(0x0500, &[("Problem1.xml", problem)]));
}

#[test]
fn a_lua_script_from_standard_input() {
    let mut h = host(vec![]);
    h.stdin = Some(b"x");
    let out = h.run(compile_lua("-", "a.tns")).ok().unwrap();
    assert_eq!(h.log, vec!["create a.tns", "stdin", "deflate xml"]);
    assert_eq!(out, document(0x0500, &[("Problem1.xml", sealed(&lua_problem(b"x")))]));
    let mut h = host(vec![]);
    let (error, _) = h.run(compile_lua("-", "a.tns")).err().unwrap();
    assert!(matches!(error, CompileError::Unreadable));
}

#[test]
fn standard_input_gives_the_same_document() {
    let mut h = host(vec![("\u{e9}.lua", b"y = 2")]);
    h.stdin = Some(b"y = 2");
    let a = h.run(compile_lua("-", "a.tns")).ok().unwrap();
    let b = h.run(compile_lua("\u{e9}.lua", "b.tns")).ok().unwrap();
    assert_eq!(a, b);
}

#[test]
fn what_is_written_only_grows() {
    let inputs = ["a.py".to_string(), "b.bmp".to_string()];
    let (build, _) = Build::start(compile_python(&inputs, "a.tns"));
    let (build, _) = build.resume(Reply::Exists(true));
    let (build, _) = build.resume(Reply::Exists(true));
    let (build, _) = build.resume(Reply::Created);
    let first = build.written().clone();
    assert_eq!(first.len(), 36 + 12 + 304);
    let deflated = |bytes: Vec<u8>| Reply::Compressed(Deflated { bytes, data_type: 0 });
    let (build, _) = build.resume(deflated(vec![1]));
    let second = build.written().clone();
    assert!(second.len() > first.len() && second.starts_with(&first));
    let (build, _) = build.resume(Reply::Contents(Some(vec![1, 2])));
    let (build, _) = build.resume(deflated(vec![3]));
    let third = build.written().clone();
    assert!(third.len() > second.len() && third.starts_with(&second));
    match build.resume(Reply::Contents(Some(vec![4]))) {
        (_, Request::Finished(document)) => assert!(document.starts_with(&third)),
        _ => panic!("the build goes on"),
    }
}

#[test]
fn a_lua_script_can_be_recovered() {
    let mut h = host(vec![("a.lua", b"return t[u[1]]>0")]);
    let out = h.run(compile_lua("a.lua", "a.tns")).ok().unwrap();
    let problem = sealed(&lua_problem(b"return t[u[1]]]]><![CDATA[>0"));
    let at = out.windows(problem.len()).position(|w| w == &problem[..]).unwrap();
    let mut body = out[at + TIEN_CRYPTED_HEADER.len()..at + problem.len()].to_vec();
    doccrypt(&mut body);
    let text = &body[1 + LUA_HEADER.len()..body.len() - LUA_FOOTER.len()];
    let text = String::from_utf8(text.to_vec()).unwrap();
    assert_eq!(text.replace("]]><![CDATA[", ""), "return t[u[1]]>0");
}

#[test]
fn a_python_document() {
    let mut h = host(vec![("d/a.py", b"import b"), ("b.py", b"pass")]);
    let inputs = ["d/a.py".to_string(), "b.py".to_string()];
    let out = h.run(compile_python(&inputs, "a.tns")).ok().unwrap();
    assert_eq!(
        h.log,
        vec![
            "exists d/a.py",
            "exists b.py",
            "create a.tns",
            "deflate xml",
            "read d/a.py",
            "deflate file",
            "read b.py",
            "deflate file",
        ]
    );
    let problem = sealed(&python_problem(b"a.py"));
    assert_eq!(
        out,
        document(
            0x0500,
            &[
                ("Problem1.xml", problem),
                ("a.py", b"import b".to_vec()),
                ("b.py", b"pass".to_vec()),
            ]
        )
    );
}

#[test]
fn a_document_without_scripts() {
    let mut h = host(vec![]);
    let out = h.run(compile_python(&[], "a.tns")).ok().unwrap();
    assert_eq!(h.log, vec!["create a.tns"]);
    assert_eq!(out, document(0x0500, &[]));
}

#[test]
fn bitmaps_are_stored() {
    let mut h = host(vec![("a.py", b""), ("i.bmp", b"BM123")]);
    let inputs = ["a.py".to_string(), "i.bmp".to_string()];
    let out = h.run(compile_python(&inputs, "a.tns")).ok().unwrap();
    assert_eq!(h.log.last().unwrap(), "read i.bmp");
    assert_eq!(&out[..10], b"*TIMLP0700");
    let problem = sealed(&python_problem(b"a.py"));
    assert_eq!(
        out,
        document(
            0x0700,
            &[("Problem1.xml", problem), ("a.py", vec![]), ("i.bmp", b"BM123".to_vec())]
        )
    );
}

#[test]
fn xml_files_keep_their_names() {
    let mut h = host(vec![("Problem2.xml", b"<prob></prob>"), ("a.py", b"")]);
    let inputs = ["a.py".to_string(), "Problem2.xml".to_string()];
    let out = h.run(compile_python(&inputs, "a.tns")).ok().unwrap();
    let problem = sealed(&python_problem(b"a.py"));
    let second = sealed(b"TIXC0100-1.0?><prob>\x0e\x00");
    assert_eq!(
        out,
        document(
            0x0500,
            &[("Problem1.xml", problem), ("a.py", vec![]), ("Problem2.xml", second)]
        )
    );
}

#[test]
fn an_xml_document() {
    let mut h = host(vec![("p", b"<prob>1</prob>")]);
    let expected =
        document(0x0500, &[("Problem1.xml", sealed(b"TIXC0100-1.0?><prob>1\x0e\x00"))]);
    let out = h.run(compile_notes_xml("<prob>1</prob>", "a.tns")).ok().unwrap();
    assert_eq!(out, expected);
    let out = h.run(compile("XML", "p", "b.tns").ok().unwrap()).ok().unwrap();
    assert_eq!(out, expected);
    assert_eq!(h.log, vec!["create a.tns", "deflate xml", "load p", "create b.tns", "deflate xml"]);
}

#[test]
fn bad_xml_leaves_the_start_of_a_document() {
    let mut h = host(vec![]);
    let (error, written) = h.run(compile_notes_xml("<x></x>", "a.tns")).err().unwrap();
    assert!(matches!(error, CompileError::BadXml));
    assert_eq!(h.log, vec!["create a.tns"]);
    let whole = document(0x0500, &[]);
    assert_eq!(written, whole[..written.len()].to_vec());
    assert_eq!(written.len(), 36 + 12 + 304);
}

/// The document of a note with the given escaped text.
fn note(text: &[u8]) -> Vec<u8> {
    let mut problem = b"TIXC0100-1.0?><prob>\n  <ProblemID>1\x0e\x01\n  <Page>\n    <PageID>1\x0e\x03\n    \
        <Notes>\n      <Text><![CDATA["
        .to_vec();
    problem.extend_from_slice(text);
    problem.extend_from_slice(b"]]>\x0e\x05\n    \x0e\x04\n  \x0e\x02\n\x0e\x00");
    document(0x0500, &[("Problem1.xml", sealed(&problem))])
}

#[test]
fn a_note_becomes_a_document() {
    let mut h = host(vec![]);
    let out = h.run(compile_notes("hello", "a.tns")).ok().unwrap();
    assert_eq!(h.log, vec!["create a.tns", "deflate xml"]);
    assert_eq!(out, note(b"hello"));
    let out = h.run(compile_notes("", "a.tns")).ok().unwrap();
    assert_eq!(out, note(b""));
    let out = h.run(compile_notes("1 < 2 && a[b[0]] > 0 </Text> \u{20ac}", "a.tns")).ok().unwrap();
    assert_eq!(out, note(b"1 < 2 && a[b[0]] > 0 </Text> \x80\x20\xac"));
}

#[test]
fn the_directory_of_a_note() {
    let mut h = host(vec![]);
    let out = h.run(compile_notes("hello", "a.tns")).ok().unwrap();
    let end = out.len() - 22;
    assert_eq!(out[end + 10], 2);
    let first = end - 2 * (46 + 12);
    assert_eq!(&out[first + 46..first + 58], b"Document.xml");
    assert_eq!(&out[first + 58 + 46..end], b"Problem1.xml");
}

#[test]
fn notes_that_end_their_section() {
    let mut h = host(vec![]);
    // Without a tag behind it, the end of a section does no harm.
    let out = h.run(compile_notes("a]]>b", "a.tns")).ok().unwrap();
    assert_eq!(out, note(b"a]]>b"));
    let out = h.run(compile_notes("\u{5d5d}>", "a.tns")).ok().unwrap();
    assert_eq!(out, note(b"\x80]]>"));
    for text in ["]]></a></b></c></d></e>", "]]><!", "\u{5d5d}><!", "\u{15d}]><!"] {
        let (error, _) = h.run(compile_notes(text, "a.tns")).err().unwrap();
        assert!(matches!(error, CompileError::BadXml));
    }
    // Tags that balance are taken as markup.
    let out = h.run(compile_notes("]]><b></b>", "a.tns")).ok().unwrap();
    assert_eq!(out, note(b"]]><b>\x0e\x06"));
}

#[test]
fn the_first_missing_file_is_reported() {
    let mut h = host(vec![("a.py", b"")]);
    let inputs = ["a.py".to_string(), "b.py".to_string(), "c.py".to_string()];
    let (error, written) = h.run(compile_python(&inputs, "a.tns")).err().unwrap();
    assert_eq!(error.message(), "Input file not found: b.py");
    assert_eq!(h.log, vec!["exists a.py", "exists b.py"]);
    assert!(written.is_empty());
}

#[test]
fn an_input_that_cannot_be_read() {
    let mut h = host(vec![("a.xml", b"no root")]);
    let (error, _) = h.run(compile_lua("a.xml", "a.tns")).err().unwrap();
    assert!(matches!(error, CompileError::Unreadable));
}

#[test]
fn the_first_part_that_fails_is_the_error() {
    let mut h = host(vec![("a.py", b"1"), ("b.xml", b"no root"), ("c.py", b"2")]);
    let inputs = ["a.py".to_string(), "b.xml".to_string(), "c.py".to_string()];
    let (error, written) = h.run(compile_python(&inputs, "a.tns")).err().unwrap();
    assert!(matches!(error, CompileError::Unreadable));
    assert_eq!(h.log.last().unwrap(), "read b.xml");
    let problem = sealed(&python_problem(b"a.py"));
    let whole = document(0x0500, &[("Problem1.xml", problem), ("a.py", b"1".to_vec())]);
    assert!(whole.starts_with(&written));
    assert_eq!(&written[written.len() - 2..], &[2, 0x31]);
}

#[test]
fn names_of_python_scripts_are_limited() {
    let longest = format!("dir/{}.py", "x".repeat(237));
    let problem = python_xml(&longest).ok().unwrap();
    assert_eq!(problem, python_problem(&longest.as_bytes()[4..]));
    let longer = format!("{}.py", "x".repeat(238));
    assert!(matches!(python_xml(&longer), Err(CompileError::FilenameTooLong)));
}

#[test]
fn a_long_name_stops_a_build() {
    let (build, request) = Build::start(compile_python(&["y".repeat(241)], "a.tns"));
    assert!(matches!(request, Request::CheckExists(_)));
    let (build, request) = build.resume(Reply::Exists(true));
    assert!(matches!(request, Request::CreateOutput(_)));
    let (build, request) = build.resume(Reply::Created);
    assert!(matches!(request, Request::Failed(CompileError::FilenameTooLong)));
    assert_eq!(build.written().len(), 36 + 12 + 304);
}

#[test]
fn a_sealed_problem() {
    let out = seal(b"Hello, document!".to_vec());
    assert_eq!(&out[..40], &TIEN_CRYPTED_HEADER);
    assert_eq!(&out[40..44], &[0x14, 0xef, 0xeb, 0x7f]);
    let mut body = out[40..].to_vec();
    doccrypt(&mut body);
    assert_eq!(body, b"Hello, document!".to_vec());
}

#[test]
fn the_pieces_of_a_python_problem() {
    assert!(PYTHON_HEADER.starts_with(b"TIXC0100-1.0?><prob xmlns=\"urn:TI.Problem\" ver=\"1.0\""));
    assert!(PYTHON_HEADER.ends_with(b"ver=\"1.0\"><py:data><py:name>"));
    assert!(PYTHON_FOOTER.starts_with(b"\x0e\x07<py:dirf>-10000000\x0e\x08"));
    assert!(PYTHON_FOOTER.ends_with(b"<py:value>10\x0e\x0a\x0e\x05\x0e\x02\x0e\x00"));
}
