//! The contents of a user configuration file: the indent width for the
//! primary output and where the output goes, either one file or one file
//! per platform.

use vstd::prelude::*;

verus! {

/// Output file names per platform; up to three files can be generated at
/// once.
pub struct PerOsOutputFileNames {
    pub windows: Option<String>,
    pub linux: Option<String>,
    pub macos: Option<String>,
}

/// A configuration: indent width and output selection.  At most one of
/// `output_filename` and `per_os_output_filenames` may be set.
pub struct Config {
    pub indent: u32,
    pub output_filename: Option<String>,
    pub per_os_output_filenames: Option<PerOsOutputFileNames>,
}

/// The model of a list of platform/file pairs.
pub open spec fn targets_view(ts: Seq<(String, String)>) -> Seq<(Seq<char>, Seq<char>)> {
    Seq::new(ts.len(), |i: int| (ts[i].0@, ts[i].1@))
}

/// The platform/file pairs a configuration selects: the per-platform names
/// in the fixed order windows, linux, macos when that table is set; else the
/// single output name under the current platform; else nothing.
pub open spec fn spec_targets(c: Config, os: Seq<char>) -> Option<Seq<(Seq<char>, Seq<char>)>> {
    match c.per_os_output_filenames {
        Option::Some(p) => {
            let w = match p.windows {
                Option::Some(f) => seq![("windows"@, f@)],
                Option::None => Seq::empty(),
            };
            let l = match p.linux {
                Option::Some(f) => seq![("linux"@, f@)],
                Option::None => Seq::empty(),
            };
            let m = match p.macos {
                Option::Some(f) => seq![("macos"@, f@)],
                Option::None => Seq::empty(),
            };
            Option::Some(w + l + m)
        },
        Option::None => match c.output_filename {
            Option::Some(f) => Option::Some(seq![(os, f@)]),
            Option::None => Option::None,
        },
    }
}

impl Default for Config {
    /// Two spaces of indent, no output selection.
    fn default() -> (r: Self)
        ensures
            r.indent == 2,
            r.output_filename is None,
            r.per_os_output_filenames is None,
    {
        Config { indent: 2, output_filename: Option::None, per_os_output_filenames: Option::None }
    }
}

impl Config {
    /// The indent width to use: the configured width when it lies in the
    /// accepted range of 0 to 10, the default of 2 otherwise.
    pub fn json_indent(&self) -> (r: u32)
        ensures
            r == if self.indent <= 10 {
                self.indent as int
            } else {
                2int
            },
    {
        if self.indent <= 10 {
            self.indent
        } else {
            2
        }
    }

    /// A configuration is rejected exactly when both output selections are
    /// set at once.
    pub fn is_valid(&self) -> (r: Result<(), String>)
        ensures
            (r is Ok) <==> !(self.output_filename is Some && self.per_os_output_filenames
                is Some),
            r is Err ==> r->Err_0@
                == "Only one of output_filename or per_os_output_filenames can be set"@,
    {
        if self.output_filename.is_some() && self.per_os_output_filenames.is_some() {
            Result::Err(
                String::from_str("Only one of output_filename or per_os_output_filenames can be set"),
            )
        } else {
            Result::Ok(())
        }
    }

    /// Whether the configuration selects any output at all.
    pub fn has_target(&self) -> (r: bool)
        ensures
            r == (self.output_filename is Some || self.per_os_output_filenames is Some),
    {
        self.output_filename.is_some() || self.per_os_output_filenames.is_some()
    }

    /// The platform/file pairs to generate, per [`spec_targets`].
    pub fn targets(&self, current_os: &str) -> (r: Option<Vec<(String, String)>>)
        ensures
            match r {
                Option::Some(ts) => spec_targets(*self, current_os@) == Option::Some(
                    targets_view(ts@),
                ),
                Option::None => spec_targets(*self, current_os@) is None,
            },
    {
        match &self.per_os_output_filenames {
            Option::Some(p) => {
                let mut ts: Vec<(String, String)> = Vec::new();
                if let Option::Some(w) = &p.windows {
                    ts.push((String::from_str("windows"), w.clone()));
                }
                if let Option::Some(l) = &p.linux {
                    ts.push((String::from_str("linux"), l.clone()));
                }
                if let Option::Some(m) = &p.macos {
                    ts.push((String::from_str("macos"), m.clone()));
                }
                proof {
                    assert(targets_view(ts@) =~= spec_targets(*self, current_os@).unwrap());
                }
                Option::Some(ts)
            },
            Option::None => match &self.output_filename {
                Option::Some(f) => {
                    let mut ts: Vec<(String, String)> = Vec::new();
                    ts.push((current_os.to_owned(), f.clone()));
                    proof {
                        assert(targets_view(ts@) =~= spec_targets(*self, current_os@).unwrap());
                    }
                    Option::Some(ts)
                },
                Option::None => Option::None,
            },
        }
    }

    /// The fixed name of the configuration file.
    pub fn filename() -> (r: &'static str)
        ensures
            r@ == ".vscode-workspace-gen.json"@,
    {
        ".vscode-workspace-gen.json"
    }
}

} // verus!
