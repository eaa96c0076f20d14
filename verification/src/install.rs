//! `install` and `uninstall`: which agent, and which files.
//!
//! The agent named on the command line is resolved against the known agents;
//! the plan says which skill files to write or which skill directories to
//! remove, or which memory file to edit. Writing and removing is the caller's.

use vstd::prelude::*;
use crate::agents::{
    agent_table, join_path, resolve_memory_agent, resolve_skill_agent, skill_dirs, skill_files,
    agent_msg, AgentError, KnownAgent, BOOTSTRAP_SKILL, WORKING_SKILL, is_skip_name, agent_index,
    memory_bins, skill_bins, known_agents, agent_rows, SkillLoc, AgentRow, loc_opt,
};
use crate::text::{join, push_str, str_views, string_of, trim};

verus! {

/// What `install` acts on.
pub enum Target {
    /// The engrym skills for an agent; `local` routes to a repo-free skill
    /// location where the agent has one; `refresh` updates every installed copy.
    Skills { agent: Option<String>, local: bool, refresh: bool },
    /// The repo's entry in an agent's global memory.
    Memory { agent: Option<String> },
}

/// `engrym install`'s arguments.
pub struct InstallArgs {
    /// Repo root for project-level skills.
    pub root: String,
    pub target: Target,
    pub json: bool,
}

/// What `uninstall` acts on.
pub enum UninstallTarget {
    Skills { agent: Option<String>, local: bool },
    Memory { agent: Option<String> },
}

/// `engrym uninstall`'s arguments.
pub struct UninstallArgs {
    pub root: String,
    pub target: UninstallTarget,
    pub json: bool,
}

/// What the caller does next.
pub enum Plan {
    /// No agent chosen: nothing changes.
    Nothing,
    /// No agent named and a terminal is there: ask which one, then plan again.
    Ask,
    /// Refresh every installed copy of the skills.
    Refresh,
    /// Write the skills: one `SKILL.md` per skill (bootstrap first).
    WriteSkills { agent: KnownAgent, files: Vec<String> },
    /// Remove the skill directories that exist among these.
    RemoveSkills { agent: KnownAgent, dirs: Vec<String> },
    /// Edit this memory file (add or remove the repo).
    EditMemory { agent: KnownAgent, file: String },
}

/// Why `install` or `uninstall` stops.
pub enum InstallError {
    Agent(AgentError),
    /// The agent's skills are user-global and `$HOME` is unknown.
    NoSkillDir { label: String },
    /// The agent's memory file is under `$HOME`, which is unknown.
    NoHome,
}

impl InstallError {
    pub fn message(&self) -> (r: String)
        ensures
            match self {
                InstallError::Agent(e) => r@ == agent_msg(*e),
                InstallError::NoSkillDir { label } => r@
                    == "couldn't resolve "@ + label@ + "'s skill directory (is $HOME set?)"@,
                InstallError::NoHome => r@ == "$HOME is not set"@,
            },
    {
        match self {
            InstallError::Agent(e) => e.message(),
            InstallError::NoSkillDir { label } => {
                let mut out: Vec<char> = Vec::new();
                push_str(&mut out, "couldn't resolve ");
                push_str(&mut out, label.as_str());
                push_str(&mut out, "'s skill directory (is $HOME set?)");
                string_of(&out)
            },
            InstallError::NoHome => "$HOME is not set".to_owned(),
        }
    }
}

/// The skill base an agent uses in the given mode, under the repo `root` or
/// `home`.
pub open spec fn skill_base_spec(row: (Seq<char>, Seq<char>, Seq<Seq<char>>, Option<(bool, Seq<char>)>,
    Option<(bool, Seq<char>)>, Option<Seq<char>>), local: bool, root: Seq<char>, home: Option<Seq<char>>)
    -> Option<Seq<char>>
{
    let loc = if local && row.4 is Some { row.4 } else { row.3 };
    match loc {
        Some((false, p)) => Some(join_path(root, p)),
        Some((true, p)) => match home {
            Some(h) => Some(join_path(h, p)),
            None => None,
        },
        None => None,
    }
}

/// The view of an optional string slice.
pub open spec fn home_view(home: Option<&str>) -> Option<Seq<char>> {
    match home {
        Some(h) => Some(h@),
        None => None,
    }
}

/// The skill base of `a` in the given mode.
fn skill_base(a: &KnownAgent, local: bool, root: &str, home: Option<&str>) -> (r: Option<String>)
    ensures
        match r {
            Some(b) => skill_base_spec(a@, local, root@, home_view(home)) == Some(b@),
            None => skill_base_spec(a@, local, root@, home_view(home)) is None,
        },
{
    match a.skills_for(local) {
        Some(loc) => loc.base(root, home),
        None => None,
    }
}

/// Plan `install`. `interactive` says whether a terminal is there to ask on
/// (and `--json` was not given); `home` is `$HOME`.
pub fn run(args: &InstallArgs, interactive: bool, home: Option<&str>) -> (r: Result<Plan, InstallError>)
    ensures
        match &args.target {
            Target::Skills { agent, local, refresh } => if *refresh {
                r matches Ok(Plan::Refresh)
            } else {
                match agent {
                    None => if interactive { r matches Ok(Plan::Ask) } else { r matches Ok(Plan::Nothing) },
                    Some(name) => {
                        let t = trim(name@);
                        if is_skip_name(t) {
                            r matches Ok(Plan::Nothing)
                        } else {
                            match agent_index(agent_table(), t) {
                                Some(i) => if agent_table()[i].3 is Some || agent_table()[i].4 is Some {
                                    match skill_base_spec(agent_table()[i], *local, args.root@, home_view(home)) {
                                        Some(b) => r matches Ok(Plan::WriteSkills { agent: a, files })
                                            && a@ == agent_table()[i] && str_views(files@) == seq![
                                                join_path(join_path(b, BOOTSTRAP_SKILL@), "SKILL.md"@),
                                                join_path(join_path(b, WORKING_SKILL@), "SKILL.md"@),
                                            ],
                                        None => r matches Err(InstallError::NoSkillDir { label })
                                            && label@ == agent_table()[i].0,
                                    }
                                } else {
                                    r matches Err(InstallError::Agent(AgentError::NoSkillDir { label }))
                                        && label@ == agent_table()[i].0
                                },
                                None => r matches Err(InstallError::Agent(AgentError::UnknownSkillAgent { name: n, capable }))
                                    && n@ == t && capable@ == join(skill_bins(agent_table()), ", "@),
                            }
                        }
                    },
                }
            },
            Target::Memory { agent } => memory_plan(agent, interactive, home, r),
        },
{
    match &args.target {
        Target::Skills { agent, local, refresh } => {
            if *refresh {
                return Ok(Plan::Refresh);
            }
            match agent {
                None => if interactive { Ok(Plan::Ask) } else { Ok(Plan::Nothing) },
                Some(name) => match resolve_skill_agent(name.as_str()) {
                    Err(e) => Err(InstallError::Agent(e)),
                    Ok(None) => Ok(Plan::Nothing),
                    Ok(Some(a)) => match skill_base(&a, *local, args.root.as_str(), home) {
                        Some(b) => {
                            let files = skill_files(b.as_str());
                            Ok(Plan::WriteSkills { agent: a, files })
                        },
                        None => {
                            let label = a.label.clone();
                            Err(InstallError::NoSkillDir { label })
                        },
                    },
                },
            }
        },
        Target::Memory { agent } => plan_memory(agent, interactive, home),
    }
}

/// `r` is the plan for a memory target: ask or do nothing without a name,
/// else the agent's memory file under `$HOME`.
pub open spec fn memory_plan(agent: &Option<String>, interactive: bool, home: Option<&str>,
    r: Result<Plan, InstallError>) -> bool
{
    match agent {
        None => if interactive { r matches Ok(Plan::Ask) } else { r matches Ok(Plan::Nothing) },
        Some(name) => {
            let t = trim(name@);
            if is_skip_name(t) {
                r matches Ok(Plan::Nothing)
            } else {
                match agent_index(agent_table(), t) {
                    Some(i) => match agent_table()[i].5 {
                        Some(m) => match home {
                            Some(h) => r matches Ok(Plan::EditMemory { agent: a, file })
                                && a@ == agent_table()[i] && file@ == join_path(h@, m),
                            None => r matches Err(InstallError::NoHome),
                        },
                        None => r matches Err(InstallError::Agent(AgentError::NoMemoryFile { label }))
                            && label@ == agent_table()[i].0,
                    },
                    None => r matches Err(InstallError::Agent(AgentError::UnknownMemoryAgent { name: n, capable }))
                        && n@ == t && capable@ == join(memory_bins(agent_table()), ", "@),
                }
            }
        },
    }
}

fn plan_memory(agent: &Option<String>, interactive: bool, home: Option<&str>) -> (r: Result<Plan, InstallError>)
    ensures
        memory_plan(agent, interactive, home, r),
{
    match agent {
        None => if interactive { Ok(Plan::Ask) } else { Ok(Plan::Nothing) },
        Some(name) => match resolve_memory_agent(name.as_str()) {
            Err(e) => Err(InstallError::Agent(e)),
            Ok(None) => Ok(Plan::Nothing),
            Ok(Some(a)) => match a.memory_file(home) {
                Some(f) => Ok(Plan::EditMemory { agent: a, file: f }),
                None => Err(InstallError::NoHome),
            },
        },
    }
}

/// Plan `uninstall`, mirroring [`run`]: the skill directories to remove (the
/// caller removes those that exist), or the memory file to edit.
pub fn run_uninstall(args: &UninstallArgs, interactive: bool, home: Option<&str>)
    -> (r: Result<Plan, InstallError>)
    ensures
        match &args.target {
            UninstallTarget::Skills { agent, local } => match agent {
                None => if interactive { r matches Ok(Plan::Ask) } else { r matches Ok(Plan::Nothing) },
                Some(name) => {
                    let t = trim(name@);
                    if is_skip_name(t) {
                        r matches Ok(Plan::Nothing)
                    } else {
                        match agent_index(agent_table(), t) {
                            Some(i) => if agent_table()[i].3 is Some || agent_table()[i].4 is Some {
                                match skill_base_spec(agent_table()[i], *local, args.root@, home_view(home)) {
                                    Some(b) => r matches Ok(Plan::RemoveSkills { agent: a, dirs })
                                        && a@ == agent_table()[i] && str_views(dirs@) == seq![
                                            join_path(b, BOOTSTRAP_SKILL@),
                                            join_path(b, WORKING_SKILL@),
                                        ],
                                    None => r matches Ok(Plan::RemoveSkills { agent: a, dirs })
                                        && a@ == agent_table()[i] && dirs@.len() == 0,
                                }
                            } else {
                                r matches Err(InstallError::Agent(AgentError::NoSkillDir { label }))
                                    && label@ == agent_table()[i].0
                            },
                            None => r matches Err(InstallError::Agent(AgentError::UnknownSkillAgent { name: n, capable }))
                                && n@ == t && capable@ == join(skill_bins(agent_table()), ", "@),
                        }
                    }
                },
            },
            UninstallTarget::Memory { agent } => memory_plan(agent, interactive, home, r),
        },
{
    match &args.target {
        UninstallTarget::Skills { agent, local } => match agent {
            None => if interactive { Ok(Plan::Ask) } else { Ok(Plan::Nothing) },
            Some(name) => match resolve_skill_agent(name.as_str()) {
                Err(e) => Err(InstallError::Agent(e)),
                Ok(None) => Ok(Plan::Nothing),
                Ok(Some(a)) => match skill_base(&a, *local, args.root.as_str(), home) {
                    Some(b) => {
                        let dirs = skill_dirs(b.as_str());
                        Ok(Plan::RemoveSkills { agent: a, dirs })
                    },
                    None => Ok(Plan::RemoveSkills { agent: a, dirs: Vec::new() }),
                },
            },
        },
        UninstallTarget::Memory { agent } => plan_memory(agent, interactive, home),
    }
}


/// The base a skill location resolves to: under the repo root, or under
/// `$HOME` when it has one.
pub open spec fn loc_base(loc: (bool, Seq<char>), root: Seq<char>, home: Option<Seq<char>>) -> Option<Seq<char>> {
    if loc.0 {
        match home {
            Some(h) => Some(join_path(h, loc.1)),
            None => None,
        }
    } else {
        Some(join_path(root, loc.1))
    }
}

/// The two skill files under an optional location.
pub open spec fn loc_files(loc: Option<(bool, Seq<char>)>, root: Seq<char>, home: Option<Seq<char>>) -> Seq<Seq<char>> {
    match loc {
        Some(l) => match loc_base(l, root, home) {
            Some(b) => seq![
                join_path(join_path(b, BOOTSTRAP_SKILL@), "SKILL.md"@),
                join_path(join_path(b, WORKING_SKILL@), "SKILL.md"@),
            ],
            None => Seq::empty(),
        },
        None => Seq::empty(),
    }
}

/// Every place an installed skill of the agents `rows` can be, in table
/// order: each agent's in-repo location, then its local-mode one.
pub open spec fn refresh_candidates_spec(rows: Seq<AgentRow>, root: Seq<char>, home: Option<Seq<char>>) -> Seq<Seq<char>>
    decreases rows.len(),
{
    if rows.len() == 0 {
        Seq::empty()
    } else {
        refresh_candidates_spec(rows.drop_last(), root, home) + loc_files(rows.last().3, root, home)
            + loc_files(rows.last().4, root, home)
    }
}

fn push_loc_files(out: &mut Vec<String>, loc: &Option<SkillLoc>, root: &str, home: Option<&str>)
    ensures
        str_views(final(out)@) == str_views(old(out)@) + loc_files(loc_opt(*loc), root@, home_view(home)),
{
    match loc {
        Some(l) => match l.base(root, home) {
            Some(b) => {
                let mut fs = skill_files(b.as_str());
                let ghost before = out@;
                let ghost added = fs@;
                out.append(&mut fs);
                proof {
                    assert(out@ =~= before + added);
                    assert(str_views(out@) =~= str_views(before) + str_views(added));
                }
            },
            None => {
                assert(str_views(out@) =~= str_views(out@) + Seq::<Seq<char>>::empty());
            },
        },
        None => {
            assert(str_views(out@) =~= str_views(out@) + Seq::<Seq<char>>::empty());
        },
    }
}

/// The skill files `install skills --refresh` brings up to date where they
/// are installed: every location of every agent that has skills.
pub fn refresh_candidates(root: &str, home: Option<&str>) -> (r: Vec<String>)
    ensures
        str_views(r@) == refresh_candidates_spec(agent_table(), root@, home_view(home)),
{
    let agents = known_agents();
    let mut out: Vec<String> = Vec::new();
    let mut i: usize = 0;
    proof {
        assert(agent_rows(agents@).take(0) =~= Seq::<AgentRow>::empty());
        assert(str_views(out@) =~= Seq::<Seq<char>>::empty());
    }
    while i < agents.len()
        invariant
            i <= agents@.len(),
            agent_rows(agents@) == agent_table(),
            str_views(out@) == refresh_candidates_spec(agent_rows(agents@).take(i as int), root@, home_view(home)),
        decreases agents@.len() - i,
    {
        proof {
            let t = agent_rows(agents@).take(i + 1);
            assert(t.drop_last() =~= agent_rows(agents@).take(i as int));
            assert(t.last() == agents@[i as int]@);
        }
        push_loc_files(&mut out, &agents[i].skills, root, home);
        push_loc_files(&mut out, &agents[i].skills_local, root, home);
        proof {
            let t = agent_rows(agents@).take(i + 1);
            assert(str_views(out@) =~= refresh_candidates_spec(t, root@, home_view(home)));
        }
        i += 1;
    }
    proof {
        assert(agent_rows(agents@).take(agents@.len() as int) =~= agent_rows(agents@));
    }
    out
}

} // verus!
