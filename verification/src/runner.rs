//! The runner model: the atomic executable unit, its run-condition, and the
//! concrete invocation (argv and working directory) it spawns as.

use vstd::prelude::*;
use vstd::string::StringExecFns;

verus! {

/// A named command specification.  Immutable once constructed.
#[derive(Debug)]
pub struct Runner {
    /// Non-empty in well-formed configurations; unique within its owning scope.
    pub name: String,
    /// Working directory, relative to the invocation root; the root itself if unset.
    pub working_dir: Option<String>,
    /// The program to run.
    pub cmd: String,
    /// Arguments, in declaration order.
    pub args: Vec<String>,
    /// Detached (non-blocking) when true.
    pub concurrent: bool,
    /// When true and this process exits, every tracked process is torn down.
    pub end_all_on_exit: bool,
    /// Run-condition: run only while no file exists at this path.
    pub when_no_file_at: Option<String>,
}

/// The mathematical shape of a `Runner`.
#[verifier::ext_equal]
pub struct RunnerV {
    pub name: Seq<char>,
    pub working_dir: Option<Seq<char>>,
    pub cmd: Seq<char>,
    pub args: Seq<Seq<char>>,
    pub concurrent: bool,
    pub end_all_on_exit: bool,
    pub when_no_file_at: Option<Seq<char>>,
}

impl View for Runner {
    type V = RunnerV;

    open spec fn view(&self) -> RunnerV {
        RunnerV {
            name: self.name@,
            working_dir: match self.working_dir {
                Some(d) => Some(d@),
                None => None,
            },
            cmd: self.cmd@,
            args: self.args.deep_view(),
            concurrent: self.concurrent,
            end_all_on_exit: self.end_all_on_exit,
            when_no_file_at: match self.when_no_file_at {
                Some(p) => Some(p@),
                None => None,
            },
        }
    }
}

/// Whether a runner should run, and if not, why.
#[derive(Debug)]
pub enum ShouldRun {
    Yes,
    No(String),
}

/// The concrete process invocation a runner spawns as.
#[derive(Debug)]
pub struct Invocation {
    /// Working directory; the invocation root when `None`.
    pub cwd: Option<String>,
    /// Full argument vector: the program first, then its arguments in order.
    pub argv: Vec<String>,
}

impl Runner {
    /// Evaluates the run-condition.  The caller reports whether a file exists
    /// at `when_no_file_at` (resolved against the invocation root); a runner
    /// without a condition always runs.
    pub fn should_run(&self, file_exists: bool) -> (r: ShouldRun)
        ensures
            match self.when_no_file_at {
                None => r is Yes,
                Some(p) => if file_exists {
                    r matches ShouldRun::No(m) && m@ == "file already exists at "@ + p@
                } else {
                    r is Yes
                },
            },
    {
        match &self.when_no_file_at {
            None => ShouldRun::Yes,
            Some(p) => {
                if file_exists {
                    ShouldRun::No(String::from_str("file already exists at ").concat(p.as_str()))
                } else {
                    ShouldRun::Yes
                }
            }
        }
    }

    /// The invocation this runner spawns as: argv is the command followed by
    /// the arguments in order, the working directory is the declared one.
    pub fn build_invocation(&self) -> (inv: Invocation)
        ensures
            inv.argv.deep_view() == seq![self@.cmd] + self@.args,
            match (inv.cwd, self.working_dir) {
                (None, None) => true,
                (Some(c), Some(w)) => c@ == w@,
                _ => false,
            },
    {
        let mut argv: Vec<String> = Vec::new();
        argv.push(self.cmd.clone());
        let mut i: usize = 0;
        while i < self.args.len()
            invariant
                i <= self.args.len(),
                argv@.len() == 1 + i,
                argv@[0]@ == self.cmd@,
                forall|j: int| 0 <= j < i ==> argv@[j + 1]@ == self.args@[j]@,
            decreases self.args.len() - i,
        {
            argv.push(self.args[i].clone());
            i = i + 1;
        }
        let cwd = match &self.working_dir {
            Some(d) => Some(d.clone()),
            None => None,
        };
        proof {
            assert(argv.deep_view() =~= seq![self@.cmd] + self@.args);
        }
        Invocation { cwd, argv }
    }
}

/// After a sequential runner exits, the batch goes on only if the exit was a
/// success: a non-zero status aborts every not-yet-started runner.
pub fn batch_continues(exit_success: bool) -> (r: bool)
    ensures
        r == exit_success,
{
    exit_success
}

} // verus!
