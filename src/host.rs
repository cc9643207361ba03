//! The host: what the interpreter asks of its embedder for the builtins that
//! print, read, load files and exit.

use vstd::prelude::*;

verus! {

/// One exchange with the host: what was asked, and what came back.
pub enum HostEvent {
    /// A line was written.
    Print(Seq<char>),
    /// A line was asked for; the line read, or `None` if none could be read.
    ReadLine(Option<Seq<char>>),
    /// A file was asked for by its path; its text, or `None` if it could not be read.
    ReadFile(Seq<char>, Option<Seq<char>>),
    /// The program asked to end with this status.
    Exit(int),
}

/// The model of an optional string.
pub open spec fn opt_text(o: Option<String>) -> Option<Seq<char>> {
    match o {
        Some(s) => Some(s@),
        None => None,
    }
}

/// The services an embedder provides to the interpreter. Nothing is assumed
/// of what these calls return: the evaluator makes them through the
/// environment, which records each request with its reply (see
/// [`HostEvent`]), and the semantics is stated for every reply.
pub trait Host {
    /// Writes `text` followed by a line break.
    fn put_line(&mut self, text: &String);

    /// Reads one line of input without its line terminator, or `None` if no
    /// line can be read.
    fn read_line(&mut self) -> Option<String>;

    /// The contents of the file at `path`, or `None` if it cannot be read.
    fn read_file(&mut self, path: &String) -> Option<String>;

    /// Asks the host to end the program with status `code`.
    fn exit(&mut self, code: i64);
}

/// A host that keeps everything in memory: it hands out queued input lines
/// and named texts, and records the output lines and an exit request.
pub struct ScriptHost {
    pub input: Vec<String>,
    pub files: Vec<(String, String)>,
    pub output: Vec<String>,
    pub exit_code: Option<i64>,
}

impl ScriptHost {
    /// A host with the given input lines and no files.
    pub fn new(input: Vec<String>) -> (r: Self)
        ensures
            r.input@ == input@,
            r.files@.len() == 0,
            r.output@.len() == 0,
            r.exit_code is None,
    {
        ScriptHost { input, files: Vec::new(), output: Vec::new(), exit_code: None }
    }
}

impl Host for ScriptHost {
    fn put_line(&mut self, text: &String) {
        self.output.push(text.clone());
    }

    fn read_line(&mut self) -> Option<String> {
        if self.input.len() == 0 {
            None
        } else {
            Some(self.input.remove(0))
        }
    }

    fn read_file(&mut self, path: &String) -> Option<String> {
        let mut i: usize = 0;
        while i < self.files.len()
            decreases self.files.len() - i,
        {
            if self.files[i].0.eq(path) {
                return Some(self.files[i].1.clone());
            }
            i = i + 1;
        }
        None
    }

    fn exit(&mut self, code: i64) {
        self.exit_code = Some(code);
    }
}

} // verus!
