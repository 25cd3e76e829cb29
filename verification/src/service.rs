//! Service descriptors: identity, dependencies, provided capability tags,
//! named methods, and the rules that merge method-level overrides with
//! service-level defaults into one launch request.

use vstd::prelude::*;
use crate::command::Command;
use crate::maps::{StrMap, lemma_str_map_of_values_related};

verus! {

/// Runtime condition of a registered service; every service starts Offline
/// and only the registry moves it.
#[derive(Clone, Copy, Debug, PartialEq, Eq, Structural)]
pub enum ServiceState {
    Offline,
    Online,
    Failed,
}

impl ServiceState {
    /// Whether the service has been started successfully.
    pub fn is_online(&self) -> (b: bool)
        ensures
            b == (*self is Online),
    {
        match self {
            ServiceState::Online => true,
            ServiceState::Offline => false,
            ServiceState::Failed => false,
        }
    }
}

impl Default for ServiceState {
    /// A service not yet started is Offline.
    fn default() -> (r: ServiceState)
        ensures
            r is Offline,
    {
        ServiceState::Offline
    }
}

/// Numeric credentials a launch runs under; a `None` field is left unset and
/// the child inherits that part of the supervisor's own identity.
#[derive(Clone, Copy, Debug, PartialEq, Eq)]
pub struct Credentials {
    pub uid: Option<usize>,
    pub gid: Option<usize>,
}

/// A credential name that could not be honoured; the launch proceeds and the
/// caller reports these.
#[derive(Debug, PartialEq, Eq)]
pub enum CredWarning {
    /// The configured user name is not in the user database; the launch
    /// proceeds under the supervisor's own identity.
    UnknownUser(String),
    /// The configured group name is not in the group database; the user's
    /// primary group is used instead.
    UnknownGroup(String),
    /// A group was configured without a user and is ignored.
    GroupWithoutUser(String),
}

/// Why a method could not be turned into a launch request.
#[derive(Clone, Copy, Debug, PartialEq, Eq, Structural)]
pub enum MethodError {
    /// The service has no method of the requested name.
    MissingMethod,
    /// The method's command line is empty, so there is nothing to execute.
    EmptyCommand,
    /// The user or group database could not be read at all.
    UserDatabase,
}

/// How configured user and group names, together with what the user and group
/// databases returned for them, settle the launch credentials: a missing user
/// leaves both ids unset (never substituting another identity), a missing
/// group falls back to the user's primary group, and a group without a user
/// is ignored; each shortfall yields one warning.
pub open spec fn spec_resolve_credentials(
    user: Option<String>,
    group: Option<String>,
    user_entry: Option<(usize, usize)>,
    group_entry: Option<usize>,
) -> (Credentials, Seq<CredWarning>) {
    match user {
        None => match group {
            None => (Credentials { uid: None, gid: None }, Seq::empty()),
            Some(g) => (
                Credentials { uid: None, gid: None },
                seq![CredWarning::GroupWithoutUser(g)],
            ),
        },
        Some(u) => match user_entry {
            None => (Credentials { uid: None, gid: None }, seq![CredWarning::UnknownUser(u)]),
            Some((uid, pgid)) => match group {
                None => (Credentials { uid: Some(uid), gid: Some(pgid) }, Seq::empty()),
                Some(g) => match group_entry {
                    Some(gid) => (Credentials { uid: Some(uid), gid: Some(gid) }, Seq::empty()),
                    None => (
                        Credentials { uid: Some(uid), gid: Some(pgid) },
                        seq![CredWarning::UnknownGroup(g)],
                    ),
                },
            },
        },
    }
}

/// Decide the launch credentials from the configured names and the database
/// lookup results, exactly as `spec_resolve_credentials` states.
pub fn resolve_credentials(
    user: &Option<String>,
    group: &Option<String>,
    user_entry: Option<(usize, usize)>,
    group_entry: Option<usize>,
) -> (r: (Credentials, Vec<CredWarning>))
    ensures
        r.0 == spec_resolve_credentials(*user, *group, user_entry, group_entry).0,
        r.1@ == spec_resolve_credentials(*user, *group, user_entry, group_entry).1,
{
    match user {
        None => match group {
            None => (Credentials { uid: None, gid: None }, Vec::new()),
            Some(g) => {
                let mut w: Vec<CredWarning> = Vec::new();
                w.push(CredWarning::GroupWithoutUser(g.clone()));
                proof {
                    assert(w@ =~= seq![CredWarning::GroupWithoutUser(*g)]);
                }
                (Credentials { uid: None, gid: None }, w)
            },
        },
        Some(u) => match user_entry {
            None => {
                let mut w: Vec<CredWarning> = Vec::new();
                w.push(CredWarning::UnknownUser(u.clone()));
                proof {
                    assert(w@ =~= seq![CredWarning::UnknownUser(*u)]);
                }
                (Credentials { uid: None, gid: None }, w)
            },
            Some((uid, pgid)) => match group {
                None => (Credentials { uid: Some(uid), gid: Some(pgid) }, Vec::new()),
                Some(g) => match group_entry {
                    Some(gid) => (Credentials { uid: Some(uid), gid: Some(gid) }, Vec::new()),
                    None => {
                        let mut w: Vec<CredWarning> = Vec::new();
                        w.push(CredWarning::UnknownGroup(g.clone()));
                        proof {
                            assert(w@ =~= seq![CredWarning::UnknownGroup(*g)]);
                        }
                        (Credentials { uid: Some(uid), gid: Some(pgid) }, w)
                    },
                },
            },
        },
    }
}

/// What one argv token becomes under environment substitution: a token whose
/// first character is `$` is replaced by the value of the named variable, or
/// by the empty string when the variable is unset; any other token is kept.
pub open spec fn sub_token(token: Seq<char>, env: Map<Seq<char>, String>) -> Seq<char> {
    if token.len() > 0 && token[0] == '$' {
        if env.dom().contains(token.subrange(1, token.len() as int)) {
            env[token.subrange(1, token.len() as int)]@
        } else {
            Seq::empty()
        }
    } else {
        token
    }
}

/// One named action of a service: the command line to execute and optional
/// per-method overrides of the service-level defaults.
pub struct Method {
    /// The command executed when this method is invoked; the first token is
    /// the executable.
    pub cmd: Vec<String>,
    /// Environment variables for the process; overrides the service-level
    /// variables entirely when present.
    pub vars: Option<Vec<(String, String)>>,
    /// Working directory; overrides the service-level directory.
    pub cwd: Option<String>,
    /// User name to run as; overrides the service-level user.
    pub user: Option<String>,
    /// Group name to run as; overrides the service-level group.
    pub group: Option<String>,
    /// Resource schemes the process may access; overrides the service-level
    /// namespace.
    pub namespace: Option<Vec<String>>,
}

/// `m1` is `m0` with environment substitution applied once to its command
/// line and everything else untouched.
pub open spec fn method_substituted(m0: Method, m1: Method, env: Map<Seq<char>, String>) -> bool {
    &&& m1 == (Method { cmd: m1.cmd, ..m0 })
    &&& m1.cmd@.len() == m0.cmd@.len()
    &&& forall|i: int|
        0 <= i < m0.cmd@.len() ==> (#[trigger] m1.cmd@[i])@ == sub_token(m0.cmd@[i]@, env)
}

/// The view of an optional list of strings.
pub open spec fn opt_strs(o: Option<Vec<String>>) -> Option<Seq<String>> {
    match o {
        Some(v) => Some(v@),
        None => None,
    }
}

impl Method {
    /// Replace, once, every command-line token that begins with `$` by the
    /// value of the named variable in `env` (the empty string if unset).
    pub fn sub_env(&mut self, env: &StrMap<String>)
        ensures
            method_substituted(*old(self), *final(self), env@),
    {
        let n = self.cmd.len();
        for i in 0..n
            invariant
                n == self.cmd@.len(),
                n == old(self).cmd@.len(),
                *self == (Method { cmd: self.cmd, ..*old(self) }),
                forall|j: int|
                    0 <= j < i ==> (#[trigger] self.cmd@[j])@ == sub_token(
                        old(self).cmd@[j]@,
                        env@,
                    ),
                forall|j: int| i <= j < n ==> (#[trigger] self.cmd@[j]) == old(self).cmd@[j],
        {
            let replacement: Option<String> = {
                let t: &str = self.cmd[i].as_str();
                let len = t.unicode_len();
                if len > 0 && t.get_char(0) == '$' {
                    let name = t.substring_char(1, len);
                    proof {
                        assert(name@ == t@.subrange(1, t@.len() as int));
                    }
                    match env.get(name) {
                        Some(v) => Some(v.clone()),
                        None => Some(String::new()),
                    }
                } else {
                    None
                }
            };
            if let Some(v) = replacement {
                self.cmd.set(i, v);
            }
        }
    }

    /// Assemble the launch request for this method: the first command token
    /// is the executable, the rest are its arguments; the inherited
    /// environment is dropped; each remaining field takes the method-level
    /// override when present, else the given service-level default; the
    /// credentials are taken as already resolved.
    pub fn command(
        &self,
        vars: &Option<Vec<(String, String)>>,
        cwd: &Option<String>,
        namespace: &Option<Vec<String>>,
        creds: Credentials,
    ) -> (c: Command)
        requires
            self.cmd@.len() > 0,
        ensures
            c.bin == self.cmd@[0],
            c.args@ == self.cmd@.skip(1),
            c.clear_env,
            c.env@ == (match (if self.vars is Some {
                self.vars
            } else {
                *vars
            }) {
                Some(v) => v@,
                None => Seq::<(String, String)>::empty(),
            }),
            c.cwd == (if self.cwd is Some {
                self.cwd
            } else {
                *cwd
            }),
            c.uid == creds.uid,
            c.gid == creds.gid,
            opt_strs(c.ns) == opt_strs(
                if self.namespace is Some {
                    self.namespace
                } else {
                    *namespace
                },
            ),
    {
        let bin = self.cmd[0].clone();
        let mut args: Vec<String> = Vec::new();
        let n = self.cmd.len();
        for i in 1..n
            invariant
                n == self.cmd@.len(),
                args@ == self.cmd@.subrange(1, i as int),
        {
            args.push(self.cmd[i].clone());
            proof {
                assert(args@ =~= self.cmd@.subrange(1, i + 1));
            }
        }
        let mut env: Vec<(String, String)> = Vec::new();
        let chosen_vars: &Option<Vec<(String, String)>> = if self.vars.is_some() {
            &self.vars
        } else {
            vars
        };
        if let Some(pairs) = chosen_vars {
            let m = pairs.len();
            for i in 0..m
                invariant
                    m == pairs@.len(),
                    env@ == pairs@.subrange(0, i as int),
            {
                env.push((pairs[i].0.clone(), pairs[i].1.clone()));
                proof {
                    assert(env@ =~= pairs@.subrange(0, i + 1));
                }
            }
            proof {
                assert(env@ =~= pairs@);
            }
        }
        let cwd_choice: Option<String> = if self.cwd.is_some() {
            match &self.cwd {
                Some(c) => Some(c.clone()),
                None => None,
            }
        } else {
            match cwd {
                Some(c) => Some(c.clone()),
                None => None,
            }
        };
        let ns_source: &Option<Vec<String>> = if self.namespace.is_some() {
            &self.namespace
        } else {
            namespace
        };
        let ns_choice: Option<Vec<String>> = match ns_source {
            Some(list) => {
                let mut copied: Vec<String> = Vec::new();
                let m = list.len();
                for i in 0..m
                    invariant
                        m == list@.len(),
                        copied@ == list@.subrange(0, i as int),
                {
                    copied.push(list[i].clone());
                    proof {
                        assert(copied@ =~= list@.subrange(0, i + 1));
                    }
                }
                proof {
                    assert(copied@ =~= list@);
                }
                Some(copied)
            },
            None => None,
        };
        proof {
            assert(self.cmd@.subrange(1, n as int) =~= self.cmd@.skip(1));
        }
        Command {
            bin,
            args,
            env,
            clear_env: true,
            cwd: cwd_choice,
            uid: creds.uid,
            gid: creds.gid,
            ns: ns_choice,
        }
    }
}

/// Error type of the system user and group database.
#[verifier::external_type_specification]
#[verifier::external_body]
pub struct ExUsersError(redox_users::Error);

/// Relies on redox_users `AllUsers::basic` and `All::get_by_name`: reads the
/// system user database and finds the named user's id and primary group id.
/// The result depends on what is on disk, so nothing is promised of it.
#[verifier::external_body]
fn lookup_user(name: &str) -> (r: Result<Option<(usize, usize)>, redox_users::Error>) {
    let users = redox_users::AllUsers::basic(redox_users::Config::default())?;
    Ok(redox_users::All::get_by_name(&users, name).map(|u| (u.uid, u.gid)))
}

/// Relies on redox_users `AllGroups::new` and `All::get_by_name`: reads the
/// system group database and finds the named group's id.  The result depends
/// on what is on disk, so nothing is promised of it.
#[verifier::external_body]
fn lookup_group(name: &str) -> (r: Result<Option<usize>, redox_users::Error>) {
    let groups = redox_users::AllGroups::new(redox_users::Config::default())?;
    Ok(redox_users::All::get_by_name(&groups, name).map(|g| g.gid))
}

/// One service: identity, what it needs and provides, its named methods, and
/// service-level defaults for the launch settings.
pub struct Service {
    /// Name the service is registered under, derived from its config unit.
    pub name: String,
    /// Names or capability tags this service needs started first.
    pub dependencies: Option<Vec<String>>,
    /// Capability tags this service offers, registered as aliases of it.
    pub provides: Option<Vec<String>>,
    /// Named methods; starting a service invokes its method named "start".
    pub methods: StrMap<Method>,
    /// Default environment variables for every method.
    pub vars: Option<Vec<(String, String)>>,
    /// Default working directory for every method.
    pub cwd: Option<String>,
    /// Default user name for every method.
    pub user: Option<String>,
    /// Default group name for every method.
    pub group: Option<String>,
    /// Default resource schemes for every method.
    pub namespace: Option<Vec<String>>,
}

impl Service {
    /// Apply environment substitution, once, to every method's command line.
    pub fn sub_env(&mut self, env: &StrMap<String>)
        ensures
            *final(self) == (Service { methods: final(self).methods, ..*old(self) }),
            final(self).methods@.dom() == old(self).methods@.dom(),
            forall|k: Seq<char>|
                old(self).methods@.dom().contains(k) ==> method_substituted(
                    #[trigger] old(self).methods@[k],
                    final(self).methods@[k],
                    env@,
                ),
    {
        let mut methods: StrMap<Method> = StrMap::new();
        core::mem::swap(&mut methods, &mut self.methods);
        proof {
            methods.lemma_view_is_entries();
        }
        let mut entries = methods.into_entries();
        let ghost orig = entries@;
        let n = entries.len();
        for i in 0..n
            invariant
                n == entries@.len(),
                n == orig.len(),
                forall|j: int|
                    0 <= j < i ==> (#[trigger] entries@[j]).0 == orig[j].0 && method_substituted(
                        orig[j].1,
                        entries@[j].1,
                        env@,
                    ),
                forall|j: int| i <= j < n ==> (#[trigger] entries@[j]) == orig[j],
        {
            let entry = &mut entries[i];
            entry.1.sub_env(env);
        }
        self.methods = StrMap::from_entries(entries);
        proof {
            lemma_str_map_of_values_related(
                orig,
                entries@,
                |a: Method, b: Method| method_substituted(a, b, env@),
            );
        }
    }

    /// The user name a method runs under: its own override, else the
    /// service default.
    pub open spec fn spec_effective_user(self, m: Method) -> Option<String> {
        if m.user is Some {
            m.user
        } else {
            self.user
        }
    }

    /// The group name a method runs under: its own override, else the
    /// service default.
    pub open spec fn spec_effective_group(self, m: Method) -> Option<String> {
        if m.group is Some {
            m.group
        } else {
            self.group
        }
    }

    /// The launch request `c` with warnings `w` is a correct resolution of
    /// this service's method named `name`: the method exists, its first
    /// command token is the executable and the rest are the arguments, the
    /// inherited environment is dropped, each setting takes the method-level
    /// override else the service-level default, and the credentials together
    /// with the warnings are what `spec_resolve_credentials` yields for the
    /// effective user and group names under some pair of database outcomes.
    pub open spec fn method_command_ok(
        self,
        name: Seq<char>,
        c: Command,
        w: Seq<CredWarning>,
    ) -> bool {
        &&& self.methods@.dom().contains(name)
        &&& self.methods@[name].cmd@.len() > 0
        &&& ({
            let m = self.methods@[name];
            &&& c.bin == m.cmd@[0]
            &&& c.args@ == m.cmd@.skip(1)
            &&& c.clear_env
            &&& c.env@ == (match (if m.vars is Some {
                m.vars
            } else {
                self.vars
            }) {
                Some(v) => v@,
                None => Seq::<(String, String)>::empty(),
            })
            &&& c.cwd == (if m.cwd is Some {
                m.cwd
            } else {
                self.cwd
            })
            &&& opt_strs(c.ns) == opt_strs(
                if m.namespace is Some {
                    m.namespace
                } else {
                    self.namespace
                },
            )
            &&& exists|ue: Option<(usize, usize)>, ge: Option<usize>|
                {
                    let rc = #[trigger] spec_resolve_credentials(
                        self.spec_effective_user(m),
                        self.spec_effective_group(m),
                        ue,
                        ge,
                    );
                    c.uid == rc.0.uid && c.gid == rc.0.gid && w == rc.1
                }
        })
    }

    /// The error `e` is the correct verdict on resolving this service's
    /// method named `name`: missing method and empty command line are exact,
    /// and a database failure can arise only when a user name is configured.
    pub open spec fn method_command_err(self, name: Seq<char>, e: MethodError) -> bool {
        match e {
            MethodError::MissingMethod => !self.methods@.dom().contains(name),
            MethodError::EmptyCommand => self.methods@.dom().contains(name)
                && self.methods@[name].cmd@.len() == 0,
            MethodError::UserDatabase => self.methods@.dom().contains(name)
                && self.spec_effective_user(self.methods@[name]) is Some,
        }
    }

    /// Resolve the named method into a launch request: merge its overrides
    /// with the service defaults, resolve the configured user and group names
    /// through the system databases, and assemble the command.  An unknown
    /// user or group never aborts the launch — the request proceeds with that
    /// credential left unset and a warning returned — but an unreadable
    /// database does, as does a missing method or an empty command line.
    pub fn method_command(&self, method_name: &str) -> (r: Result<
        (Command, Vec<CredWarning>),
        MethodError,
    >)
        ensures
            match r {
                Ok((c, w)) => self.method_command_ok(method_name@, c, w@),
                Err(e) => self.method_command_err(method_name@, e),
            },
    {
        let m = match self.methods.get(method_name) {
            Some(m) => m,
            None => {
                return Err(MethodError::MissingMethod);
            },
        };
        if m.cmd.len() == 0 {
            return Err(MethodError::EmptyCommand);
        }
        let eff_user: &Option<String> = if m.user.is_some() {
            &m.user
        } else {
            &self.user
        };
        let eff_group: &Option<String> = if m.group.is_some() {
            &m.group
        } else {
            &self.group
        };
        let user_entry: Option<(usize, usize)> = match eff_user {
            Some(name) => match lookup_user(name.as_str()) {
                Ok(e) => e,
                Err(_) => {
                    return Err(MethodError::UserDatabase);
                },
            },
            None => None,
        };
        let group_entry: Option<usize> = if user_entry.is_some() {
            match eff_group {
                Some(gname) => match lookup_group(gname.as_str()) {
                    Ok(e) => e,
                    Err(_) => {
                        return Err(MethodError::UserDatabase);
                    },
                },
                None => None,
            }
        } else {
            None
        };
        let (creds, warnings) = resolve_credentials(eff_user, eff_group, user_entry, group_entry);
        let c = m.command(&self.vars, &self.cwd, &self.namespace, creds);
        proof {
            let ms = self.methods@[method_name@];
            let rc = spec_resolve_credentials(
                self.spec_effective_user(ms),
                self.spec_effective_group(ms),
                user_entry,
                group_entry,
            );
            assert(c.uid == rc.0.uid && c.gid == rc.0.gid && warnings@ == rc.1);
        }
        Ok((c, warnings))
    }

    /// Look a method up by name.
    pub fn method(&self, name: &str) -> (r: Option<&Method>)
        ensures
            match r {
                Some(m) => self.methods@.dom().contains(name@) && *m == self.methods@[name@],
                None => !self.methods@.dom().contains(name@),
            },
    {
        self.methods.get(name)
    }
}

} // verus!
