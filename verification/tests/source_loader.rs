use graphol::source_loader::{
    load_entry_source, resolve_source, IncludeError, IncludeEvent, IncludeRequest, IncludeResolver,
    ResolveStep,
};

/// An in-memory file system: absolute paths with `/` and their contents.
struct Files {
    entries: Vec<(String, String)>,
    reads: Vec<String>,
}

impl Files {
    fn new(entries: &[(&str, &str)]) -> Files {
        Files {
            entries: entries.iter().map(|(p, c)| (p.to_string(), c.to_string())).collect(),
            reads: Vec::new(),
        }
    }

    fn normalize(path: &str) -> String {
        let mut parts: Vec<&str> = Vec::new();
        for part in path.split('/') {
            match part {
                "" | "." => {}
                ".." => {
                    parts.pop();
                }
                other => parts.push(other),
            }
        }
        format!("/{}", parts.join("/"))
    }

    fn parent(path: &str) -> String {
        match path.rfind('/') {
            Some(0) => "/".to_string(),
            Some(i) => path[..i].to_string(),
            None => ".".to_string(),
        }
    }

    fn answer(&mut self, request: IncludeRequest) -> IncludeEvent {
        match request {
            IncludeRequest::Resolve { base_dir, target } => {
                let joined = match &base_dir {
                    Some(dir) => format!("{}/{}", dir, target),
                    None => target.clone(),
                };
                let path = Files::normalize(&joined);
                let prefix = format!("{}/", path);
                let is_dir = !self.entries.iter().any(|(p, _)| *p == path)
                    && self.entries.iter().any(|(p, _)| p.starts_with(&prefix));
                if base_dir.is_none() && is_dir {
                    IncludeEvent::Directory { path }
                } else if self.entries.iter().any(|(p, _)| *p == path) {
                    IncludeEvent::Resolved { parent: Files::parent(&path), path }
                } else {
                    IncludeEvent::ResolveFailed {
                        path: joined,
                        reason: "No such file or directory (os error 2)".to_string(),
                    }
                }
            }
            IncludeRequest::Read { path } => {
                self.reads.push(path.clone());
                match self.entries.iter().find(|(p, _)| *p == path) {
                    Some((_, contents)) => IncludeEvent::Read { contents: contents.clone() },
                    None => IncludeEvent::ReadFailed { reason: "gone".to_string() },
                }
            }
        }
    }

    fn drive(&mut self, start: (IncludeResolver, ResolveStep)) -> Result<String, IncludeError> {
        let (mut resolver, mut step) = start;
        loop {
            match step {
                ResolveStep::Done(result) => return result,
                ResolveStep::Need(request) => {
                    let event = self.answer(request);
                    step = resolver.feed(event);
                }
            }
        }
    }
}

#[test]
fn resolves_nested_includes_relative_to_current_file() {
    let mut files = Files::new(&[
        ("/root/main.graphol", "include \"sub/lib.graphol\"\necho \"main\"\n"),
        ("/root/sub/lib.graphol", "include \"../shared.graphol\"\necho \"lib\"\n"),
        ("/root/shared.graphol", "echo \"shared\"\n"),
    ]);
    let resolved = files
        .drive(load_entry_source("/root/main.graphol"))
        .expect("include should resolve");
    assert_eq!(resolved, "echo \"shared\"\necho \"lib\"\necho \"main\"\n");
}

#[test]
fn includes_same_file_only_once() {
    let mut files = Files::new(&[
        (
            "/root/main.graphol",
            "include \"shared.graphol\"\ninclude \"shared.graphol\"\necho \"end\"\n",
        ),
        ("/root/shared.graphol", "echo \"shared\"\n"),
    ]);
    let resolved = files
        .drive(load_entry_source("/root/main.graphol"))
        .expect("include should resolve");
    assert_eq!(resolved, "echo \"shared\"\necho \"end\"\n");
    assert_eq!(files.reads, vec!["/root/main.graphol".to_string(), "/root/shared.graphol".to_string()]);
}

#[test]
fn fails_on_include_cycle() {
    let mut files = Files::new(&[
        ("/root/a.graphol", "include \"b.graphol\"\n"),
        ("/root/b.graphol", "include \"a.graphol\"\n"),
    ]);
    let error = files.drive(load_entry_source("/root/a.graphol")).expect_err("cycle should fail");
    assert!(error.message.contains("include cycle detected"));
    assert_eq!(
        error.message,
        "include cycle detected: /root/a.graphol -> /root/b.graphol -> /root/a.graphol"
    );
}

#[test]
fn source_without_base_rejects_include() {
    let mut files = Files::new(&[]);
    let error = files
        .drive(resolve_source("include \"foo.graphol\"\n", None))
        .expect_err("include without base should fail");
    assert!(error.message.contains("file-based execution context"));
    assert_eq!(
        error.message,
        "include requires file-based execution context to resolve paths at line 1"
    );
}

#[test]
fn include_keyword_is_reserved() {
    let mut files = Files::new(&[]);
    let error = files
        .drive(resolve_source("value include other\n", Some(".")))
        .expect_err("reserved keyword should fail");
    assert!(error.message.contains("reserved keyword"));
    assert_eq!(error.message, "invalid use of reserved keyword 'include' at line 1");
}

#[test]
fn plain_source_is_returned_unchanged() {
    let mut files = Files::new(&[]);
    let source = "echo \"a\"\n\nvalue b\n";
    let resolved = files.drive(resolve_source(source, None)).expect("plain source resolves");
    assert_eq!(resolved, source);
    assert!(files.reads.is_empty());
}

#[test]
fn missing_final_newline_is_kept_missing() {
    let mut files = Files::new(&[("/w/x.graphol", "echo 1")]);
    let resolved = files
        .drive(resolve_source("include \"x.graphol\"\necho 2", Some("/w")))
        .expect("include should resolve");
    assert_eq!(resolved, "echo 1\necho 2");
}

#[test]
fn carriage_returns_before_line_feeds_are_dropped() {
    let mut files = Files::new(&[]);
    let resolved = files
        .drive(resolve_source("echo 1\r\necho 2\r\n", None))
        .expect("plain source resolves");
    assert_eq!(resolved, "echo 1\necho 2\n");
}

#[test]
fn error_inside_included_file_names_the_file_and_line() {
    let mut files = Files::new(&[("/w/bad.graphol", "echo 1\ninclude foo\n")]);
    let error = files
        .drive(resolve_source("include \"bad.graphol\"\n", Some("/w")))
        .expect_err("malformed include should fail");
    assert_eq!(
        error.message,
        "invalid include directive, expected: include \"path.graphol\" at /w/bad.graphol:2"
    );
}

#[test]
fn unclosed_include_literal_is_rejected() {
    let mut files = Files::new(&[]);
    let error = files
        .drive(resolve_source("include \"foo.graphol\n", Some("/w")))
        .expect_err("unclosed literal should fail");
    assert_eq!(error.message, "invalid include directive, unclosed string literal at line 1");
}

#[test]
fn missing_include_file_reports_resolve_failure() {
    let mut files = Files::new(&[]);
    let error = files
        .drive(resolve_source("include \"nope.graphol\"\n", Some("/w")))
        .expect_err("missing file should fail");
    assert_eq!(
        error.message,
        "failed to resolve include file '/w/nope.graphol': No such file or directory (os error 2)"
    );
}

#[test]
fn unreadable_include_file_reports_read_failure() {
    let mut resolver_files = Files::new(&[("/w/a.graphol", "x")]);
    let (mut resolver, step) = resolve_source("include \"a.graphol\"\n", Some("/w"));
    let request = match step {
        ResolveStep::Need(request) => request,
        ResolveStep::Done(_) => panic!("a request was expected"),
    };
    let resolved = resolver_files.answer(request);
    let step = resolver.feed(resolved);
    match step {
        ResolveStep::Need(IncludeRequest::Read { path }) => assert_eq!(path, "/w/a.graphol"),
        _ => panic!("a read request was expected"),
    }
    let step = resolver.feed(IncludeEvent::ReadFailed { reason: "denied".to_string() });
    match step {
        ResolveStep::Done(Err(error)) => {
            assert_eq!(error.message, "failed to read include file '/w/a.graphol': denied")
        }
        _ => panic!("a read failure was expected"),
    }
}

#[test]
fn entry_starts_by_resolving_its_path() {
    let (_, step) = load_entry_source("dir/main.graphol");
    match step {
        ResolveStep::Need(IncludeRequest::Resolve { base_dir, target }) => {
            assert_eq!(base_dir, None);
            assert_eq!(target, "dir/main.graphol");
        }
        _ => panic!("a resolve request was expected"),
    }
}

#[test]
fn plain_entry_file_is_read_once_and_returned() {
    let mut files = Files::new(&[("/r/m.graphol", "echo 1\nvalue \"include\"\n")]);
    let resolved = files.drive(load_entry_source("/r/m.graphol")).expect("entry resolves");
    assert_eq!(resolved, "echo 1\nvalue \"include\"\n");
    assert_eq!(files.reads, vec!["/r/m.graphol".to_string()]);
}

#[test]
fn loads_main_graphol_when_entry_path_is_directory() {
    let mut files = Files::new(&[("/root/dir_entry_defaults_to_main/main.graphol", "echo \"main\"\n")]);
    let resolved = files
        .drive(load_entry_source("/root/dir_entry_defaults_to_main"))
        .expect("directory entry should load main.graphol");
    assert_eq!(resolved, "echo \"main\"\n");
}
