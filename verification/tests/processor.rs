use nlp_processor::node::result::NodeResult;
use nlp_processor::processor::line::{line_segments, LineSegment};
use nlp_processor::processor::processor::{ConfigFile, ConfigFiles, Processor};

fn file(name: &str, contents: &str) -> ConfigFile {
    ConfigFile { name: name.to_string(), contents: contents.to_string() }
}

fn fields_of(r: &NodeResult) -> Vec<(String, Vec<String>)> {
    let f = r.get_fields();
    let mut out = Vec::new();
    for i in 0..f.len() {
        let (n, v) = f.entry(i);
        out.push((n.clone(), v.clone()));
    }
    out.sort();
    out
}

fn greeting_config() -> ConfigFiles {
    ConfigFiles {
        field_types_var: "name:LAST_NAME".to_string(),
        phrases: vec![file("greeting", "hi\nhello")],
        field_types: vec![],
        tasks: vec![file("greet", "{greeting}\n{greeting} I am {name}\nI am {name}")],
    }
}

fn segs(line: &str) -> Vec<(bool, String)> {
    line_segments(line)
        .into_iter()
        .map(|s| match s {
            LineSegment::Text(t) => (false, t),
            LineSegment::Reference(n) => (true, n),
        })
        .collect()
}

#[test]
fn line_pieces_trim_one_space_around_references() {
    assert_eq!(
        segs("Hello {name} there"),
        vec![(false, "Hello".to_string()), (true, "name".to_string()), (false, "there".to_string())]
    );
    assert_eq!(
        segs("{greeting} I am {name}"),
        vec![(true, "greeting".to_string()), (false, "I am".to_string()), (true, "name".to_string())]
    );
    assert_eq!(segs("a {x}"), vec![(false, "a".to_string()), (true, "x".to_string())]);
    assert_eq!(segs("a{x}"), vec![(true, "x".to_string())]);
    assert_eq!(segs("plain words"), vec![(false, "plain words".to_string())]);
    assert_eq!(segs("{not valid!}"), vec![(false, "{not valid!}".to_string())]);
    assert!(segs("").is_empty());
}

#[test]
fn line_pieces_count_bytes_not_characters() {
    assert_eq!(
        segs("héllo wörld {name}"),
        vec![(false, "héllo wörld".to_string()), (true, "name".to_string())]
    );
    assert_eq!(segs("é{x}"), vec![(false, "é".to_string()), (true, "x".to_string())]);
    assert_eq!(segs("a{x}ü"), vec![(true, "x".to_string()), (false, "ü".to_string())]);
}

#[test]
fn task_found_with_field_value() {
    let mut p = Processor::new("test");
    assert_eq!(p.init(&greeting_config()), Ok(true));
    let r = p.process("Hello I am Smith");
    assert_eq!(r.get_task(), "greet");
    assert_eq!(r.len(), 4);
    assert_eq!(r.get_confidence(), 900_000);
    assert_eq!(fields_of(&r), vec![("name".to_string(), vec!["Smith".to_string()])]);
}

#[test]
fn task_found_from_single_phrase() {
    let mut p = Processor::new("test");
    assert_eq!(p.init(&greeting_config()), Ok(true));
    let r = p.process("hi");
    assert_eq!(r.get_task(), "greet");
    assert_eq!(r.len(), 1);
    assert_eq!(r.get_confidence(), 1_000_000);
    assert!(fields_of(&r).is_empty());
    let r = p.process("goodbye");
    assert_eq!(r.get_task(), "");
    assert_eq!(r.len(), 0);
}

#[test]
fn task_found_without_leading_phrase() {
    let mut p = Processor::new("test");
    assert_eq!(p.init(&greeting_config()), Ok(true));
    let r = p.process("i am smith");
    assert_eq!(r.get_task(), "greet");
    assert_eq!(r.len(), 3);
    assert_eq!(r.get_confidence(), 500_000);
    assert_eq!(fields_of(&r), vec![("name".to_string(), vec!["smith".to_string()])]);
}

/// Inside a phrase, each part is matched where the one before it stopped.
#[test]
fn phrase_parts_follow_each_other() {
    let files = ConfigFiles {
        field_types_var: "name:LAST_NAME".to_string(),
        phrases: vec![file("greeting", "hi\nhello"), file("intro", "{greeting} I am {name}")],
        field_types: vec![],
        tasks: vec![file("introduce", "{intro}")],
    };
    let mut p = Processor::new("test");
    assert_eq!(p.init(&files), Ok(true));
    let r = p.process("hello I am Smith");
    assert_eq!(r.get_task(), "introduce");
    assert_eq!(r.len(), 4);
    assert_eq!(r.get_confidence(), 900_000);
    assert_eq!(fields_of(&r), vec![("name".to_string(), vec!["Smith".to_string()])]);
}

#[test]
fn text_after_last_reference_matches() {
    let files = ConfigFiles {
        field_types_var: "x:LAST_NAME".to_string(),
        phrases: vec![file("who", "{x} there")],
        field_types: vec![],
        tasks: vec![file("ask", "{who}"), file("direct", "say {x} there")],
    };
    let mut p = Processor::new("test");
    assert_eq!(p.init(&files), Ok(true));
    let r = p.process("Bob there");
    assert_eq!(r.get_task(), "ask");
    assert_eq!(r.len(), 2);
    assert_eq!(fields_of(&r), vec![("x".to_string(), vec!["Bob".to_string()])]);
    let r = p.process("say Bob there");
    assert_eq!(r.get_task(), "direct");
    assert_eq!(r.len(), 3);
}

#[test]
fn first_name_is_built_in() {
    let files = ConfigFiles {
        field_types_var: "given:FIRST_NAME".to_string(),
        phrases: vec![],
        field_types: vec![],
        tasks: vec![file("greet", "hello {given}")],
    };
    let mut p = Processor::new("test");
    assert_eq!(p.init(&files), Ok(true));
    let r = p.process("hello Ann");
    assert_eq!(r.get_task(), "greet");
    assert_eq!(fields_of(&r), vec![("given".to_string(), vec!["Ann".to_string()])]);
}

#[test]
fn synonym_gives_first_value() {
    let files = ConfigFiles {
        field_types_var: "greeting_word:greeting_type".to_string(),
        phrases: vec![],
        field_types: vec![file("greeting_type", "Hi:Hello\nBye:Goodbye")],
        tasks: vec![file("salute", "say {greeting_word}")],
    };
    let mut p = Processor::new("test");
    assert_eq!(p.init(&files), Ok(true));
    let r = p.process("say Hello");
    assert_eq!(r.get_task(), "salute");
    assert_eq!(fields_of(&r), vec![("greeting_word".to_string(), vec!["Hi".to_string()])]);
    let r = p.process("say goodbye");
    assert_eq!(fields_of(&r), vec![("greeting_word".to_string(), vec!["Bye".to_string()])]);
}

#[test]
fn bad_field_definition_is_refused() {
    let mut files = greeting_config();
    files.field_types_var = "name:LAST_NAME\nbroken".to_string();
    let mut p = Processor::new("test");
    assert_eq!(p.init(&files), Err("Invalid definition of field in 'field_types.var' file".to_string()));
}

#[test]
fn missing_phrase_is_reported() {
    let mut files = greeting_config();
    files.tasks = vec![file("greet", "{missing}")];
    let mut p = Processor::new("test");
    assert_eq!(p.init(&files), Err("Could not open './config/test/phrases/missing.td'".to_string()));
}

#[test]
fn empty_phrase_file_is_reported() {
    let mut files = greeting_config();
    files.phrases = vec![file("greeting", "")];
    let mut p = Processor::new("test");
    assert_eq!(p.init(&files), Err("Could not read './config/test/phrases/greeting.td'".to_string()));
}

#[test]
fn empty_line_is_reported() {
    let mut files = greeting_config();
    files.phrases = vec![file("greeting", "hi\n")];
    let mut p = Processor::new("test");
    assert_eq!(p.init(&files), Err("Could not find any phrases in line".to_string()));
}

#[test]
fn phrase_cycle_is_reported() {
    let files = ConfigFiles {
        field_types_var: "name:LAST_NAME".to_string(),
        phrases: vec![file("a", "{b}"), file("b", "x {a}")],
        field_types: vec![],
        tasks: vec![],
    };
    let mut p = Processor::new("test");
    assert_eq!(p.init(&files), Err("Cannot compile 'a' because it is already compiling".to_string()));
}

#[test]
fn unknown_field_type_file_is_reported() {
    let files = ConfigFiles {
        field_types_var: "colour:colour_type".to_string(),
        phrases: vec![],
        field_types: vec![],
        tasks: vec![file("paint", "paint it {colour}")],
    };
    let mut p = Processor::new("test");
    assert_eq!(p.init(&files), Err("Could not open './config/test/field_types/colour_type.td'".to_string()));
}

#[test]
fn two_tasks_on_same_input_are_refused() {
    let files = ConfigFiles {
        field_types_var: "name:LAST_NAME".to_string(),
        phrases: vec![file("greeting", "hi")],
        field_types: vec![],
        tasks: vec![file("greet", "{greeting}"), file("other", "{greeting}")],
    };
    let mut p = Processor::new("test");
    assert_eq!(p.init(&files), Err("Cannot compile because 'greet' and 'other' has same input".to_string()));
}

#[test]
fn task_with_empty_first_line_is_skipped() {
    let mut files = greeting_config();
    files.tasks.push(file("skipped", "\n{greeting} there"));
    let mut p = Processor::new("test");
    assert_eq!(p.init(&files), Ok(true));
    let r = p.process("hi there");
    assert_eq!(r.get_task(), "greet");
    assert_eq!(r.len(), 1);
}

#[test]
fn dump_of_compiled_tree() {
    let files = ConfigFiles {
        field_types_var: "name:LAST_NAME".to_string(),
        phrases: vec![file("greeting", "hi")],
        field_types: vec![],
        tasks: vec![file("greet", "{greeting}")],
    };
    let mut p = Processor::new("test");
    assert_eq!(p.init(&files), Ok(true));
    let expected = format!("Base Node |\n{}| Task 'greet' | Phrase 'greeting' | Nodes |", " ".repeat(10));
    assert_eq!(p.get_dump_string(), expected);
}

#[test]
fn try_process_matches_process() {
    let mut p = Processor::new("test");
    assert_eq!(p.init(&greeting_config()), Ok(true));
    let r = p.try_process("hello I am Jones").unwrap();
    assert_eq!(r.get_task(), "greet");
    assert_eq!(r.len(), 4);
}

#[test]
fn later_line_with_same_value_wins() {
    let files = ConfigFiles {
        field_types_var: "greeting_word:greeting_type".to_string(),
        phrases: vec![],
        field_types: vec![file("greeting_type", "Hi:Hello\nHi:Hey")],
        tasks: vec![file("salute", "say {greeting_word}")],
    };
    let mut p = Processor::new("test");
    assert_eq!(p.init(&files), Ok(true));
    let r = p.process("say hey");
    assert_eq!(r.get_task(), "salute");
    assert_eq!(fields_of(&r), vec![("greeting_word".to_string(), vec!["Hi".to_string()])]);
    let r = p.process("say hello");
    assert_eq!(r.get_task(), "");
}

#[test]
fn later_field_definition_wins() {
    let files = ConfigFiles {
        field_types_var: "who:CITY\nwho:LAST_NAME".to_string(),
        phrases: vec![],
        field_types: vec![],
        tasks: vec![file("greet", "hello {who}")],
    };
    let mut p = Processor::new("test");
    assert_eq!(p.init(&files), Ok(true));
    let r = p.process("hello Bob");
    assert_eq!(r.get_task(), "greet");
    assert_eq!(fields_of(&r), vec![("who".to_string(), vec!["Bob".to_string()])]);
}

#[test]
fn phrase_naming_itself_is_reported() {
    let files = ConfigFiles {
        field_types_var: "name:LAST_NAME".to_string(),
        phrases: vec![file("a", "{a}")],
        field_types: vec![],
        tasks: vec![],
    };
    let mut p = Processor::new("test");
    assert_eq!(p.init(&files), Err("Cannot compile 'a' because it is already compiling".to_string()));
}

#[test]
fn empty_task_line_is_reported() {
    let files = ConfigFiles {
        field_types_var: "name:LAST_NAME".to_string(),
        phrases: vec![],
        field_types: vec![],
        tasks: vec![file("greet", "hi\n")],
    };
    let mut p = Processor::new("test");
    assert_eq!(p.init(&files), Err("Could not find any phrases in line".to_string()));
}

#[test]
fn fields_of_one_type_share_it() {
    let files = ConfigFiles {
        field_types_var: "x:colour\ny:colour".to_string(),
        phrases: vec![],
        field_types: vec![file("colour", "Red:red:crimson")],
        tasks: vec![file("paint", "paint {x} and {y}")],
    };
    let mut p = Processor::new("test");
    assert_eq!(p.init(&files), Ok(true));
    let r = p.process("paint crimson and red");
    assert_eq!(r.get_task(), "paint");
    assert_eq!(
        fields_of(&r),
        vec![("x".to_string(), vec!["Red".to_string()]), ("y".to_string(), vec!["Red".to_string()])]
    );
}

#[test]
fn only_task_lines_are_in_the_tree() {
    let files = ConfigFiles {
        field_types_var: "name:LAST_NAME".to_string(),
        phrases: vec![],
        field_types: vec![],
        tasks: vec![file("skipped", "\nbye"), file("greet", "hi")],
    };
    let mut p = Processor::new("test");
    assert_eq!(p.init(&files), Ok(true));
    let expected = format!("Base Node |\n{}| Task 'greet' | Phrase 'hi' | Nodes |", " ".repeat(10));
    assert_eq!(p.get_dump_string(), expected);
}
