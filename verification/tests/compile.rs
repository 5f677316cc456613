use luna_nspire::compile::{CompileError, ErrorKind, Job, Part};
use luna_nspire::{compile, compile_lua, compile_notes, compile_notes_xml, compile_python};

fn part_names(job: &Job) -> Vec<String> {
    job.parts
        .iter()
        .map(|part| match part {
            Part::DefaultDocument => "document".to_string(),
            Part::PythonProblem(path) => format!("python {}", path),
            Part::InputFile(path) => format!("file {}", path),
            Part::XmlProblem(xml) => format!("xml {}", String::from_utf8_lossy(xml)),
        })
        .collect()
}

#[test]
fn a_lua_file() {
    let job = compile_lua("a.lua", "a.tns");
    assert_eq!(job.load, None);
    assert_eq!(job.must_exist, vec!["a.lua"]);
    assert_eq!(job.output, "a.tns");
    assert_eq!(job.tiversion, 0x0500);
    assert_eq!(part_names(&job), vec!["document", "file a.lua"]);
}

#[test]
fn standard_input_does_not_have_to_exist() {
    let job = compile_lua("-", "a.tns");
    assert!(job.must_exist.is_empty());
    assert_eq!(part_names(&job), vec!["document", "file -"]);
}

#[test]
fn a_bitmap_sets_the_version() {
    assert_eq!(compile_lua("image.BMP", "a.tns").tiversion, 0x0700);
    let inputs = ["a.py".to_string(), "b.bmp".to_string(), "c.py".to_string()];
    assert_eq!(compile_python(&inputs, "a.tns").tiversion, 0x0700);
    assert_eq!(compile_python(&inputs[..1], "a.tns").tiversion, 0x0500);
}

#[test]
fn the_first_python_script_is_shown() {
    let inputs = ["x/a.py".to_string(), "b.py".to_string()];
    let job = compile_python(&inputs, "o.tns");
    assert_eq!(job.must_exist, vec!["x/a.py", "b.py"]);
    assert_eq!(
        part_names(&job),
        vec!["document", "python x/a.py", "file x/a.py", "file b.py"]
    );
}

#[test]
fn no_python_scripts() {
    let job = compile_python(&[], "o.tns");
    assert!(job.must_exist.is_empty());
    assert_eq!(part_names(&job), vec!["document"]);
}

#[test]
fn xml_content() {
    let job = compile_notes_xml("<prob></prob>", "o.tns");
    assert_eq!(job.load, None);
    assert_eq!(part_names(&job), vec!["document", "xml <prob></prob>"]);
}

#[test]
fn notes_content() {
    let job = compile_notes("Hi", "o.tns");
    let xml = "<?xml version=\"1.0\" encoding=\"UTF-8\"?>\n<prob>\n  <ProblemID>1</ProblemID>\n  \
               <Page>\n    <PageID>1</PageID>\n    <Notes>\n      <Text><![CDATA[Hi]]></Text>\n    \
               </Notes>\n  </Page>\n</prob>";
    assert_eq!(part_names(&job), vec!["document".to_string(), format!("xml {}", xml)]);
}

#[test]
fn kinds_of_sources() {
    for kind in ["lua", "LUA", "Lua"] {
        let job = compile(kind, "in", "out").ok().unwrap();
        assert_eq!(part_names(&job), vec!["document", "file in"]);
        assert_eq!(job.must_exist, vec!["in"]);
    }
    for kind in ["py", "Python", "PY"] {
        let job = compile(kind, "in", "out").ok().unwrap();
        assert_eq!(part_names(&job), vec!["document", "python in", "file in"]);
    }
    for kind in ["xml", "Notes"] {
        let job = compile(kind, "in", "out").ok().unwrap();
        assert_eq!(job.load, Some("in".to_string()));
        assert!(job.must_exist.is_empty());
        assert_eq!(part_names(&job), vec!["document"]);
    }
}

#[test]
fn unknown_kinds_of_sources() {
    for kind in ["", "lua ", "ruby", "\u{212a}"] {
        let error = compile(kind, "in", "out").err().unwrap();
        assert_eq!(error.kind(), ErrorKind::InvalidInput);
        assert_eq!(error.message(), format!("Unknown source type: {}", kind));
    }
}

#[test]
fn messages_of_errors() {
    let error = CompileError::NotFound("a b".to_string());
    assert_eq!(error.kind(), ErrorKind::NotFound);
    assert_eq!(error.message(), "Input file not found: a b");
    assert_eq!(CompileError::Unreadable.kind(), ErrorKind::InvalidData);
    assert_eq!(CompileError::Unreadable.message(), "failed to read and compress file");
    assert_eq!(CompileError::BadXml.kind(), ErrorKind::InvalidData);
    assert_eq!(CompileError::BadXml.message(), "failed to process XML content");
    assert_eq!(CompileError::FilenameTooLong.kind(), ErrorKind::InvalidInput);
    assert_eq!(CompileError::FilenameTooLong.message(), "filename too long");
}
