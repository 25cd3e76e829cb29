//! The privileged launch primitive, modelled as data plus a verified plan.
//!
//! A `Command` collects everything a child process needs.  Spawning follows a
//! fixed protocol: the caller opens the executable by path *before* any
//! restriction, duplicates the process, has the child perform
//! `child_steps()` strictly in order, and finally replaces the child's image
//! through the *already open* handle with `argv()` — so the restricted child
//! never resolves the path again.  The step order is the security-critical
//! part and is fixed by contract here: group id before user id (changing the
//! user may forfeit the right to change the group), working directory and
//! resource namespace next, and the environment last.  Performing the steps
//! is process manipulation that a thin outer layer does with kernel calls.

use vstd::prelude::*;

verus! {

/// One action the child performs, in order, between duplication and the
/// final replacement of its image.
#[derive(Debug)]
pub enum LaunchStep {
    /// Set real and effective group id.
    SetGroupId(usize),
    /// Set real and effective user id.
    SetUserId(usize),
    /// Change the working directory.
    ChangeDir(String),
    /// Build a resource namespace from the scheme names and enter it.
    EnterNamespace(Vec<String>),
    /// Drop every inherited environment variable.
    ClearEnv,
    /// Set one environment variable.
    SetEnvVar(String, String),
}

/// The protocol rank of a step: steps must be performed in non-decreasing
/// rank order.
pub open spec fn step_rank(s: LaunchStep) -> int {
    match s {
        LaunchStep::SetGroupId(_) => 0,
        LaunchStep::SetUserId(_) => 1,
        LaunchStep::ChangeDir(_) => 2,
        LaunchStep::EnterNamespace(_) => 3,
        LaunchStep::ClearEnv => 4,
        LaunchStep::SetEnvVar(_, _) => 5,
    }
}

/// A launch request: executable, argument list, environment changes, and
/// optional credential / directory / namespace settings.
#[derive(Debug)]
pub struct Command {
    pub bin: String,
    pub args: Vec<String>,
    pub env: Vec<(String, String)>,
    pub clear_env: bool,
    pub cwd: Option<String>,
    pub uid: Option<usize>,
    pub gid: Option<usize>,
    pub ns: Option<Vec<String>>,
}

/// The characters a rendered argument list appends after the executable: one
/// space before each argument, in order.
pub open spec fn spec_args_suffix(args: Seq<String>) -> Seq<char>
    decreases args.len(),
{
    if args.len() == 0 {
        Seq::empty()
    } else {
        spec_args_suffix(args.drop_last()) + seq![' '] + args.last()@
    }
}

/// A singleton or empty step sequence.
pub open spec fn opt_step(s: Option<LaunchStep>) -> Seq<LaunchStep> {
    match s {
        Some(x) => seq![x],
        None => Seq::empty(),
    }
}

impl Command {
    /// The credential, directory and namespace steps, before any
    /// environment work.
    pub open spec fn spec_pre_env_steps(self) -> Seq<LaunchStep> {
        opt_step(
            match self.gid {
                Some(g) => Some(LaunchStep::SetGroupId(g)),
                None => None,
            },
        ) + opt_step(
            match self.uid {
                Some(u) => Some(LaunchStep::SetUserId(u)),
                None => None,
            },
        ) + opt_step(
            match self.cwd {
                Some(c) => Some(LaunchStep::ChangeDir(c)),
                None => None,
            },
        ) + opt_step(
            match self.ns {
                Some(ns) => Some(LaunchStep::EnterNamespace(ns)),
                None => None,
            },
        ) + (if self.clear_env {
            seq![LaunchStep::ClearEnv]
        } else {
            Seq::empty()
        })
    }

    /// The exact ordered sequence of steps the child must perform: group id,
    /// then user id, then working directory, then namespace, then clearing
    /// the environment, then each configured variable in order.
    pub open spec fn spec_child_steps(self) -> Seq<LaunchStep> {
        self.spec_pre_env_steps() + Seq::new(
            self.env@.len(),
            |i: int| LaunchStep::SetEnvVar(self.env@[i].0, self.env@[i].1),
        )
    }

    /// A new request for `bin` with empty arguments and environment, no
    /// credential overrides, no working directory and no namespace.
    pub fn new(bin: String) -> (c: Command)
        ensures
            c.bin == bin,
            c.args@ == Seq::<String>::empty(),
            c.env@ == Seq::<(String, String)>::empty(),
            c.clear_env == false,
            c.cwd is None,
            c.uid is None,
            c.gid is None,
            c.ns is None,
    {
        Command {
            bin,
            args: Vec::new(),
            env: Vec::new(),
            clear_env: false,
            cwd: None,
            uid: None,
            gid: None,
            ns: None,
        }
    }

    /// Append one argument.
    pub fn arg(&mut self, arg: String)
        ensures
            *final(self) == (Command { args: final(self).args, ..*old(self) }),
            final(self).args@ == old(self).args@.push(arg),
    {
        self.args.push(arg);
    }

    /// Append every argument of `args`, in order.
    pub fn args(&mut self, args: Vec<String>)
        ensures
            *final(self) == (Command { args: final(self).args, ..*old(self) }),
            final(self).args@ == old(self).args@ + args@,
    {
        let mut args = args;
        self.args.append(&mut args);
    }

    /// Record one environment variable to set; a later binding of the same
    /// name wins when the steps are performed in order.
    pub fn env(&mut self, var: String, val: String)
        ensures
            *final(self) == (Command { env: final(self).env, ..*old(self) }),
            final(self).env@ == old(self).env@.push((var, val)),
    {
        self.env.push((var, val));
    }

    /// Request that the child's inherited environment be dropped before the
    /// configured variables are applied.
    pub fn env_clear(&mut self)
        ensures
            *final(self) == (Command { clear_env: true, ..*old(self) }),
    {
        self.clear_env = true;
    }

    /// Set the child's working directory.
    pub fn cwd(&mut self, cwd: String)
        ensures
            *final(self) == (Command { cwd: Some(cwd), ..*old(self) }),
    {
        self.cwd = Some(cwd);
    }

    /// Set the child's user id.
    pub fn uid(&mut self, uid: usize)
        ensures
            *final(self) == (Command { uid: Some(uid), ..*old(self) }),
    {
        self.uid = Some(uid);
    }

    /// Set the child's group id.
    pub fn gid(&mut self, gid: usize)
        ensures
            *final(self) == (Command { gid: Some(gid), ..*old(self) }),
    {
        self.gid = Some(gid);
    }

    /// Restrict the child to the given resource schemes for its lifetime.
    pub fn ns(&mut self, ns: Vec<String>)
        ensures
            *final(self) == (Command { ns: Some(ns), ..*old(self) }),
    {
        self.ns = Some(ns);
    }

    /// The argument vector handed to the new image: the executable path
    /// first, then the configured arguments.
    pub fn argv(&self) -> (r: Vec<String>)
        ensures
            r@ == seq![self.bin] + self.args@,
    {
        let mut r: Vec<String> = Vec::new();
        r.push(self.bin.clone());
        let mut rest = self.args.clone();
        r.append(&mut rest);
        proof {
            assert(r@ =~= seq![self.bin] + self.args@);
        }
        r
    }

    /// The readable rendering of the request: the executable followed by each
    /// argument, separated by single spaces.
    pub fn command_line(&self) -> (r: String)
        ensures
            r@ == self.bin@ + spec_args_suffix(self.args@),
    {
        let mut r = self.bin.clone();
        let n = self.args.len();
        for i in 0..n
            invariant
                n == self.args@.len(),
                r@ == self.bin@ + spec_args_suffix(self.args@.take(i as int)),
        {
            r.append(" ");
            r.append(self.args[i].as_str());
            proof {
                reveal_strlit(" ");
                assert(" "@ =~= seq![' ']);
                assert(self.args@.take(i + 1).drop_last() =~= self.args@.take(i as int));
                assert(self.args@.take(i + 1).last() == self.args@[i as int]);
                assert(r@ =~= self.bin@ + spec_args_suffix(self.args@.take(i + 1)));
            }
        }
        proof {
            assert(self.args@.take(n as int) =~= self.args@);
        }
        r
    }

    /// The ordered steps the child must perform before replacing its image.
    /// Consumes the request: the steps carry its settings.  Read `argv()` and
    /// open the executable named by `bin` before calling this.
    pub fn child_steps(self) -> (steps: Vec<LaunchStep>)
        ensures
            steps@ == self.spec_child_steps(),
    {
        let ghost cmd = self;
        let Command { bin: _, args: _, env, clear_env, cwd, uid, gid, ns } = self;
        let mut steps: Vec<LaunchStep> = Vec::new();
        if let Some(g) = gid {
            steps.push(LaunchStep::SetGroupId(g));
        }
        if let Some(u) = uid {
            steps.push(LaunchStep::SetUserId(u));
        }
        if let Some(c) = cwd {
            steps.push(LaunchStep::ChangeDir(c));
        }
        if let Some(list) = ns {
            steps.push(LaunchStep::EnterNamespace(list));
        }
        if clear_env {
            steps.push(LaunchStep::ClearEnv);
        }
        let ghost prefix = steps@;
        proof {
            assert(prefix =~= cmd.spec_pre_env_steps());
        }
        let num_vars = env.len();
        for i in 0..num_vars
            invariant
                num_vars == env@.len(),
                env@ == cmd.env@,
                steps@ == prefix + Seq::new(
                    i as nat,
                    |k: int| LaunchStep::SetEnvVar(env@[k].0, env@[k].1),
                ),
        {
            let var = env[i].0.clone();
            let val = env[i].1.clone();
            steps.push(LaunchStep::SetEnvVar(var, val));
            proof {
                assert(steps@ =~= prefix + Seq::new(
                    (i + 1) as nat,
                    |k: int| LaunchStep::SetEnvVar(env@[k].0, env@[k].1),
                ));
            }
        }
        proof {
            assert(steps@ =~= cmd.spec_child_steps());
        }
        steps
    }

    /// The whole protocol order in one statement: along `spec_child_steps`,
    /// ranks never decrease.  In particular the group id is set while the
    /// process still has the right to set it — strictly before the user id —
    /// and the environment is written only after the namespace is entered.
    #[verifier::rlimit(60)]
    pub proof fn lemma_child_steps_ordered(self)
        ensures
            forall|a: int, b: int|
                0 <= a < b < self.spec_child_steps().len() ==> step_rank(
                    #[trigger] self.spec_child_steps()[a],
                ) <= step_rank(#[trigger] self.spec_child_steps()[b]),
    {
    }

    /// The group id step, when present, comes strictly before the user id
    /// step: once the user id has changed, permission to change the group id
    /// may already be gone.
    pub proof fn lemma_gid_before_uid(self, a: int, b: int)
        requires
            0 <= a < self.spec_child_steps().len(),
            0 <= b < self.spec_child_steps().len(),
            self.spec_child_steps()[a] is SetUserId,
            self.spec_child_steps()[b] is SetGroupId,
        ensures
            b < a,
    {
        self.lemma_child_steps_ordered();
        if a < b {
            assert(step_rank(self.spec_child_steps()[a]) <= step_rank(self.spec_child_steps()[b]));
        }
        if a == b {
            assert(false);
        }
    }
}

} // verus!
