//! Command-line handling: separating flag arguments from program text, and
//! reading the flags into a configuration. Printing and file reading are the
//! caller's business; the decisions are made here.

use crate::ast::str_views;
use vstd::prelude::*;

verus! {

broadcast use vstd::std_specs::vec::group_vec_axioms, vstd::seq::group_seq_axioms;

/// A request to print something and stop, instead of running: the version
/// banner or the usage text.
#[derive(Debug, Clone, Copy, PartialEq, Eq, Structural)]
pub enum CliRequest {
    Version,
    Help,
}

/// The run configuration: whether the bare arguments are to be evaluated,
/// and the file to load, if one was named.
#[derive(Debug, PartialEq)]
pub struct Config {
    pub eval_input: bool,
    pub file: Option<String>,
}

/// The arguments can be scanned without falling off the end: every `-f`
/// that the scan reaches is followed by a value.
pub open spec fn config_args_ok(args: Seq<Seq<char>>) -> bool
    decreases args.len(),
{
    if args.len() == 0 {
        true
    } else if args[0] == "-v"@ || args[0] == "--version"@ || args[0] == "-h"@ || args[0]
        == "--help"@ {
        true
    } else if args[0] == "-f"@ {
        args.len() >= 2 && config_args_ok(args.skip(2))
    } else {
        config_args_ok(args.drop_first())
    }
}

/// What scanning the flags decides: stop for a version or help request, or
/// run with the last file that a reached `-f` named; `file` carries what an
/// earlier part of the scan had named.
pub open spec fn config_scan(args: Seq<Seq<char>>, file: Option<Seq<char>>) -> Result<
    Option<Seq<char>>,
    CliRequest,
>
    decreases args.len(),
{
    if args.len() == 0 {
        Ok(file)
    } else if args[0] == "-v"@ || args[0] == "--version"@ {
        Err(CliRequest::Version)
    } else if args[0] == "-h"@ || args[0] == "--help"@ {
        Err(CliRequest::Help)
    } else if args[0] == "-f"@ {
        if args.len() >= 2 {
            config_scan(args.skip(2), Some(args[1]))
        } else {
            Err(CliRequest::Help)
        }
    } else {
        config_scan(args.drop_first(), file)
    }
}

impl Config {
    /// Reads the flag arguments: a version or help request stops the run;
    /// otherwise the configuration holds the last named file. Bare input is
    /// never marked for evaluation.
    #[verifier::loop_isolation(false)]
    pub fn new(args: Vec<String>) -> (r: Result<Config, CliRequest>)
        requires
            config_args_ok(str_views(args@)),
        ensures
            match (r, config_scan(str_views(args@), None)) {
                (Ok(c), Ok(f)) => {
                    &&& c.eval_input == false
                    &&& match (c.file, f) {
                        (Some(name), Some(fm)) => name@ == fm,
                        (None, None) => true,
                        _ => false,
                    }
                },
                (Err(a), Err(b)) => a == b,
                _ => false,
            },
    {
        let eval_input = false;
        let mut file: Option<String> = None;
        let ghost all = str_views(args@);
        let mut a: usize = 0;
        proof {
            crate::ast::lemma_str_views(args@);
            assert(all.skip(0) =~= all);
        }
        while a < args.len()
            invariant
                a <= args@.len(),
                config_args_ok(all.skip(a as int)),
                config_scan(all, None) == config_scan(
                    all.skip(a as int),
                    match file {
                        Some(name) => Some(name@),
                        None => None,
                    },
                ),
            decreases args@.len() - a,
        {
            proof {
                assert(all.skip(a as int)[0] == args@[a as int]@);
            }
            let arg = &args[a];
            if crate::lispobject::str_eq(arg.as_str(), "-v") || crate::lispobject::str_eq(
                arg.as_str(),
                "--version",
            ) {
                return Err(CliRequest::Version);
            } else if crate::lispobject::str_eq(arg.as_str(), "-h")
                || crate::lispobject::str_eq(arg.as_str(), "--help") {
                return Err(CliRequest::Help);
            } else if crate::lispobject::str_eq(arg.as_str(), "-f") {
                proof {
                    assert(all.skip(a as int).len() >= 2);
                    assert(all.skip(a as int)[1] == args@[a + 1]@);
                    assert(all.skip(a as int).skip(2) =~= all.skip(a + 2));
                }
                file = Some(args[a + 1].clone());
                a = a + 2;
            } else {
                proof {
                    assert(all.skip(a as int).drop_first() =~= all.skip(a + 1));
                }
                a = a + 1;
            }
        }
        Ok(Self { eval_input, file })
    }
}

/// The outcome of separating the arguments: flags first, program text
/// second. A reached `-f` carries its following value with it into the
/// flags; any other argument starting with `-` is a flag; the rest is
/// program text.
pub open spec fn sort_input_spec(args: Seq<Seq<char>>) -> (Seq<Seq<char>>, Seq<Seq<char>>)
    decreases args.len(),
{
    if args.len() == 0 {
        (Seq::empty(), Seq::empty())
    } else if args[0] == "-f"@ {
        if args.len() >= 2 {
            let rest = sort_input_spec(args.skip(2));
            (seq![args[0], args[1]] + rest.0, rest.1)
        } else {
            (seq![args[0]], Seq::empty())
        }
    } else if args[0].len() > 0 && args[0][0] == '-' {
        let rest = sort_input_spec(args.drop_first());
        (seq![args[0]] + rest.0, rest.1)
    } else {
        let rest = sort_input_spec(args.drop_first());
        (rest.0, seq![args[0]] + rest.1)
    }
}

/// The arguments can be separated without falling off the end: every `-f`
/// that the scan reaches is followed by a value.
pub open spec fn sort_args_ok(args: Seq<Seq<char>>) -> bool
    decreases args.len(),
{
    if args.len() == 0 {
        true
    } else if args[0] == "-f"@ {
        args.len() >= 2 && sort_args_ok(args.skip(2))
    } else {
        sort_args_ok(args.drop_first())
    }
}

/// Separates the command-line arguments into flags and program text.
#[verifier::loop_isolation(false)]
pub fn sort_input(args: &[String]) -> (r: (Vec<String>, Vec<String>))
    requires
        sort_args_ok(str_views(args@)),
    ensures
        str_views(r.0@) == sort_input_spec(str_views(args@)).0,
        str_views(r.1@) == sort_input_spec(str_views(args@)).1,
{
    let mut cmds: Vec<String> = Vec::new();
    let mut lisp: Vec<String> = Vec::new();
    let ghost all = str_views(args@);
    let mut a: usize = 0;
    proof {
        crate::ast::lemma_str_views(args@);
        crate::ast::lemma_str_views(cmds@);
        crate::ast::lemma_str_views(lisp@);
        assert(all.skip(0) =~= all);
        assert(str_views(cmds@) + sort_input_spec(all).0 =~= sort_input_spec(all).0);
        assert(str_views(lisp@) + sort_input_spec(all).1 =~= sort_input_spec(all).1);
    }
    while a < args.len()
        invariant
            a <= args@.len(),
            sort_args_ok(all.skip(a as int)),
            sort_input_spec(all).0 == str_views(cmds@) + sort_input_spec(all.skip(a as int)).0,
            sort_input_spec(all).1 == str_views(lisp@) + sort_input_spec(all.skip(a as int)).1,
        decreases args@.len() - a,
    {
        proof {
            assert(all.skip(a as int)[0] == args@[a as int]@);
        }
        let arg = &args[a];
        if crate::lispobject::str_eq(arg.as_str(), "-f") {
            let ghost cmds_pre = cmds@;
            proof {
                assert(all.skip(a as int).len() >= 2);
                assert(all.skip(a as int)[1] == args@[a + 1]@);
                assert(all.skip(a as int).skip(2) =~= all.skip(a + 2));
            }
            cmds.push(arg.clone());
            cmds.push(args[a + 1].clone());
            proof {
                crate::ast::lemma_str_views(cmds_pre);
                crate::ast::lemma_str_views(cmds@);
                assert(str_views(cmds@) =~= str_views(cmds_pre) + seq![
                    args@[a as int]@,
                    args@[a + 1]@,
                ]);
                assert(str_views(cmds_pre) + (seq![args@[a as int]@, args@[a + 1]@]
                    + sort_input_spec(all.skip(a + 2)).0) =~= (str_views(cmds_pre) + seq![
                    args@[a as int]@,
                    args@[a + 1]@,
                ]) + sort_input_spec(all.skip(a + 2)).0);
            }
            a = a + 2;
        } else {
            let first = arg.as_str().unicode_len() > 0 && arg.as_str().get_char(0) == '-';
            proof {
                assert(all.skip(a as int).drop_first() =~= all.skip(a + 1));
            }
            if first {
                let ghost cmds_pre = cmds@;
                cmds.push(arg.clone());
                proof {
                    crate::ast::lemma_str_views(cmds_pre);
                    crate::ast::lemma_str_views(cmds@);
                    assert(str_views(cmds@) =~= str_views(cmds_pre) + seq![args@[a as int]@]);
                    assert(str_views(cmds_pre) + (seq![args@[a as int]@] + sort_input_spec(
                        all.skip(a + 1),
                    ).0) =~= (str_views(cmds_pre) + seq![args@[a as int]@]) + sort_input_spec(
                        all.skip(a + 1),
                    ).0);
                }
            } else {
                let ghost lisp_pre = lisp@;
                lisp.push(arg.clone());
                proof {
                    crate::ast::lemma_str_views(lisp_pre);
                    crate::ast::lemma_str_views(lisp@);
                    assert(str_views(lisp@) =~= str_views(lisp_pre) + seq![args@[a as int]@]);
                    assert(str_views(lisp_pre) + (seq![args@[a as int]@] + sort_input_spec(
                        all.skip(a + 1),
                    ).1) =~= (str_views(lisp_pre) + seq![args@[a as int]@]) + sort_input_spec(
                        all.skip(a + 1),
                    ).1);
                }
            }
            a = a + 1;
        }
    }
    proof {
        assert(str_views(cmds@) + sort_input_spec(all.skip(args@.len() as int)).0 =~= str_views(
            cmds@,
        ));
        assert(str_views(lisp@) + sort_input_spec(all.skip(args@.len() as int)).1 =~= str_views(
            lisp@,
        ));
    }
    (cmds, lisp)
}

} // verus!
