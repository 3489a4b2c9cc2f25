//! Decisions of the run operation: which executable may run, how the
//! executable's path is shown, and how the runner's arguments are put
//! together. Compiling and spawning the process are the embedding
//! program's job.

use vstd::prelude::*;
use crate::strutil::str_starts_with;

verus! {

/// What the run operation can reject.
#[derive(Clone, Copy, PartialEq, Eq, Debug, Structural)]
pub enum RunError {
    /// No bin target is available to run.
    NoBinaryAvailable,
    /// Everything was asked for, but the project has several executables.
    SeveralExecutables,
    /// The filter chose more than one executable.
    SeveralChosen,
}

impl RunError {
    /// The message shown to the user.
    pub fn message(&self) -> (r: &'static str)
        ensures
            self is NoBinaryAvailable ==> r@ == "a bin target must be available for `cargo run`"@,
            self is SeveralExecutables ==> r@
                == "`cargo run` requires that a project only have one executable; use the `--bin` option to specify which one to run"@,
            self is SeveralChosen ==> r@
                == "`cargo run` can run at most one executable, but multiple were specified"@,
    {
        match self {
            RunError::NoBinaryAvailable => "a bin target must be available for `cargo run`",
            RunError::SeveralExecutables => "`cargo run` requires that a project only have one executable; use the `--bin` option to specify which one to run",
            RunError::SeveralChosen => "`cargo run` can run at most one executable, but multiple were specified",
        }
    }
}

/// What the run decision reads of one target: the kind flags and whether
/// the compile filter picked it.
#[derive(Clone, Copy, PartialEq, Eq, Debug, Structural)]
pub struct RunTarget {
    pub is_lib: bool,
    pub is_custom_build: bool,
    pub is_bin: bool,
    pub matches_filter: bool,
}

/// A target counts as runnable when it is neither a library nor a build
/// script, and it is a bin (when everything was asked for) or chosen by
/// the filter.
pub open spec fn runnable(t: RunTarget, everything: bool) -> bool {
    !t.is_lib && !t.is_custom_build && (if everything {
        t.is_bin
    } else {
        t.matches_filter
    })
}

/// How many targets count as runnable.
pub open spec fn runnable_count(ts: Seq<RunTarget>, everything: bool) -> nat
    decreases ts.len(),
{
    if ts.len() == 0 {
        0
    } else {
        runnable_count(ts.drop_last(), everything) + if runnable(ts.last(), everything) {
            1nat
        } else {
            0nat
        }
    }
}

/// Decides whether a run may go ahead: without a runnable target the run
/// is refused when everything was asked for (a narrower filter is checked
/// later by compilation); with more than one it is always refused, with
/// the message depending on how the targets were chosen.
pub fn check_run_targets(targets: &Vec<RunTarget>, everything: bool) -> (r: Result<(), RunError>)
    ensures
        runnable_count(targets@, everything) == 0 && everything ==> r == Result::<
            (),
            RunError,
        >::Err(RunError::NoBinaryAvailable),
        runnable_count(targets@, everything) == 0 && !everything ==> r is Ok,
        runnable_count(targets@, everything) == 1 ==> r is Ok,
        runnable_count(targets@, everything) > 1 ==> r == Result::<(), RunError>::Err(
            if everything {
                RunError::SeveralExecutables
            } else {
                RunError::SeveralChosen
            },
        ),
{
    let mut count: usize = 0;
    let mut i: usize = 0;
    while i < targets.len()
        invariant
            i <= targets@.len(),
            count <= i,
            count as nat == runnable_count(targets@.take(i as int), everything),
        decreases targets@.len() - i,
    {
        proof {
            assert(targets@.take(i + 1int).drop_last() == targets@.take(i as int));
        }
        let t = targets[i];
        if !t.is_lib && !t.is_custom_build && (if everything {
            t.is_bin
        } else {
            t.matches_filter
        }) {
            count = count + 1;
        }
        i = i + 1;
    }
    proof {
        assert(targets@.take(targets@.len() as int) == targets@);
    }
    if count == 0 {
        if everything {
            Err(RunError::NoBinaryAvailable)
        } else {
            Ok(())
        }
    } else if count > 1 {
        if everything {
            Err(RunError::SeveralExecutables)
        } else {
            Err(RunError::SeveralChosen)
        }
    } else {
        Ok(())
    }
}

/// How the executable's path is shown: when it lies directly under the
/// working directory it is shown relative with a leading `./`; under a
/// subdirectory, just relative; anywhere else, unchanged.
pub open spec fn spec_display_path(exe: Seq<char>, cwd: Seq<char>) -> Seq<char> {
    let prefix = cwd + seq!['/'];
    if prefix.len() <= exe.len() && exe.subrange(0, prefix.len() as int) == prefix {
        let rel = exe.skip(prefix.len() as int);
        if !rel.contains('/') {
            "./"@ + rel
        } else {
            rel
        }
    } else {
        exe
    }
}

/// Renders the executable path for the "Running" line.
pub fn display_exe_path(exe: &str, cwd: &str) -> (r: String)
    ensures
        r@ == spec_display_path(exe@, cwd@),
{
    let mut prefix = cwd.to_owned();
    proof {
        reveal_strlit("/");
    }
    prefix.append("/");
    proof {
        assert(prefix@ =~= cwd@ + seq!['/']);
    }
    if str_starts_with(exe, prefix.as_str()) {
        let rel = exe.substring_char(prefix.as_str().unicode_len(), exe.unicode_len());
        let mut has_sep = false;
        let rl = rel.unicode_len();
        let mut i: usize = 0;
        while i < rl
            invariant
                i <= rl,
                rl == rel@.len(),
                has_sep == exists|j: int| 0 <= j < i && rel@[j] == '/',
            decreases rl - i,
        {
            if rel.get_char(i) == '/' {
                proof {
                    assert(rel@[i as int] == '/');
                }
                has_sep = true;
            }
            proof {
                if !has_sep {
                    assert forall|j: int| !(0 <= j < i + 1 && rel@[j] == '/') by {}
                }
            }
            i = i + 1;
        }
        proof {
            if has_sep {
                let w = choose|j: int| 0 <= j < rl && rel@[j] == '/';
                assert(rel@.contains('/'));
            } else {
                if rel@.contains('/') {
                    let w = choose|j: int| 0 <= j < rel@.len() && rel@[j] == '/';
                }
            }
        }
        if !has_sep {
            proof {
                reveal_strlit("./");
            }
            let mut out = "./".to_owned();
            out.append(rel);
            proof {
                assert(out@ =~= "./"@ + exe@.skip(prefix@.len() as int));
            }
            out
        } else {
            rel.to_owned()
        }
    } else {
        exe.to_owned()
    }
}

/// The placeholder that stands for the executable in a runner's argument
/// list.
pub open spec fn spec_substitute(args: Seq<Seq<char>>, exe: Seq<char>) -> Seq<Seq<char>> {
    let mapped = args.map_values(
        |a: Seq<char>|
            if a == "{}"@ {
                exe
            } else {
                a
            },
    );
    if args.contains("{}"@) {
        mapped
    } else {
        mapped.push(exe)
    }
}

/// Builds the runner's argument list: every `{}` placeholder becomes the
/// executable's path; without a placeholder the path is appended.
#[verifier::loop_isolation(false)]
pub fn substitute_exe_args(args: &Vec<String>, exe: &str) -> (r: Vec<String>)
    ensures
        crate::target_info::flag_views(r@) == spec_substitute(
            crate::target_info::flag_views(args@),
            exe@,
        ),
{
    proof {
        reveal_strlit("{}");
    }
    let ghost av = crate::target_info::flag_views(args@);
    let ghost mapped = av.map_values(
        |a: Seq<char>|
            if a == "{}"@ {
                exe@
            } else {
                a
            },
    );
    let mut out: Vec<String> = Vec::new();
    let mut exe_passed = false;
    let mut i: usize = 0;
    while i < args.len()
        invariant
            i <= args@.len(),
            crate::target_info::flag_views(out@) =~= mapped.take(i as int),
            exe_passed == av.take(i as int).contains("{}"@),
        decreases args@.len() - i,
    {
        let ghost pre = out@;
        let a = &args[i];
        if crate::strutil::str_eq(a.as_str(), "{}") {
            exe_passed = true;
            out.push(exe.to_owned());
            proof {
                assert(av.take(i + 1int)[i as int] == "{}"@);
                assert(av.take(i + 1int).contains("{}"@));
            }
        } else {
            out.push(a.clone());
            proof {
                if av.take(i as int).contains("{}"@) {
                    let w = choose|w: int| 0 <= w < i && av.take(i as int)[w] == "{}"@;
                    assert(av.take(i + 1int)[w] == "{}"@);
                } else {
                    assert forall|w: int| 0 <= w < i + 1 implies #[trigger] av.take(i + 1int)[w]
                        != "{}"@ by {
                        if w < i {
                            assert(av.take(i as int)[w] == av.take(i + 1int)[w]);
                            assert(!av.take(i as int).contains("{}"@));
                        } else {
                            assert(av.take(i + 1int)[w] == a@);
                        }
                    }
                    if av.take(i + 1int).contains("{}"@) {
                        let w = choose|w: int|
                            0 <= w < av.take(i + 1int).len() && #[trigger] av.take(i + 1int)[w]
                                == "{}"@;
                        assert(false);
                    }
                }
            }
        }
        proof {
            assert(out@.drop_last() =~= pre);
            assert(crate::target_info::flag_views(out@) =~= mapped.take(i + 1int)) by {
                assert forall|j: int|
                    0 <= j < i + 1 implies #[trigger] crate::target_info::flag_views(out@)[j]
                    == mapped.take(i + 1int)[j] by {
                    if j < i {
                        assert(out@[j] == pre[j]);
                    } else {
                        assert(out@[j] == out@.last());
                        assert(mapped[j] == if av[j] == "{}"@ {
                            exe@
                        } else {
                            av[j]
                        });
                    }
                }
            }
        }
        i = i + 1;
    }
    proof {
        assert(av.take(av.len() as int) == av);
        assert(mapped.take(mapped.len() as int) == mapped);
    }
    if !exe_passed {
        let ghost pre = out@;
        out.push(exe.to_owned());
        proof {
            assert(out@.drop_last() =~= pre);
            assert(crate::target_info::flag_views(out@) =~= mapped.push(exe@)) by {
                assert forall|j: int|
                    0 <= j < mapped.len() + 1 implies #[trigger] crate::target_info::flag_views(
                    out@,
                )[j] == mapped.push(exe@)[j] by {
                    if j < mapped.len() {
                        assert(out@[j] == pre[j]);
                    } else {
                        assert(out@[j] == out@.last());
                    }
                }
            }
        }
    }
    out
}

} // verus!
