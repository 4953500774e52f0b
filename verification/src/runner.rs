//! The runner: the settings of a run and the steps that lead from the names
//! of the targets to a coordinator.

use vstd::prelude::*;
use vstd::pervasive::unreached;
use crate::error::{Error, ErrorView};
use crate::executor::{initial, Coordinator};
use crate::freshness::Snapshot;
use crate::graph::Graph;
use crate::registry::{Registry, RegistryView};
use crate::resolve::{
    justified, lemma_graph_cycle, lemma_resolution_determined, lemma_same_lookups, resolution,
    resolvable, resolve, resolved, same_lookups,
};
use crate::schedule::schedule_of;
use crate::listing::{by_name, list_lines, list_text, sorted};
use crate::task::{names, task_views, Task, TaskView};
use crate::text::{copy_texts, distinct, owned, texts};

verus! {

/// The views of a list of pairs of strings, in order.
pub open spec fn pairs(v: Seq<(String, String)>) -> Seq<(Seq<char>, Seq<char>)> {
    Seq::new(v.len(), |i: int| (v[i].0@, v[i].1@))
}

/// What an [`EnvironmentSpec`] holds, as plain values.
pub struct EnvironmentSpecView {
    pub path: Seq<char>,
    pub directory: Seq<char>,
    pub include_paths: Seq<Seq<char>>,
    pub variables: Seq<(Seq<char>, Seq<char>)>,
    pub dry_run: bool,
    pub always_run: bool,
}

/// The settings from which every worker sets up its own context: the build
/// file and its directory, the directories in which modules are looked for,
/// the variables that scripts see, in the order in which they were set, and
/// the two switches of a run.
#[derive(Debug, PartialEq, Eq)]
pub struct EnvironmentSpec {
    path: String,
    directory: String,
    include_paths: Vec<String>,
    variables: Vec<(String, String)>,
    dry_run: bool,
    always_run: bool,
}

impl View for EnvironmentSpec {
    type V = EnvironmentSpecView;

    closed spec fn view(&self) -> EnvironmentSpecView {
        EnvironmentSpecView {
            path: self.path@,
            directory: self.directory@,
            include_paths: texts(self.include_paths@),
            variables: pairs(self.variables@),
            dry_run: self.dry_run,
            always_run: self.always_run,
        }
    }
}

/// A copy of a list of pairs of strings.
fn copy_pairs(v: &Vec<(String, String)>) -> (out: Vec<(String, String)>)
    ensures
        pairs(out@) == pairs(v@),
{
    let mut out: Vec<(String, String)> = Vec::new();
    let mut i: usize = 0;
    while i < v.len()
        invariant
            i <= v.len(),
            out@.len() == i,
            forall|k: int| 0 <= k < i ==> out@[k].0@ == v@[k].0@ && out@[k].1@ == v@[k].1@,
        decreases v.len() - i,
    {
        out.push((v[i].0.clone(), v[i].1.clone()));
        i = i + 1;
    }
    assert(pairs(out@) =~= pairs(v@));
    out
}

impl Clone for EnvironmentSpec {
    fn clone(&self) -> (out: EnvironmentSpec)
        ensures
            out@ == self@,
    {
        EnvironmentSpec {
            path: self.path.clone(),
            directory: self.directory.clone(),
            include_paths: copy_texts(&self.include_paths),
            variables: copy_pairs(&self.variables),
            dry_run: self.dry_run,
            always_run: self.always_run,
        }
    }
}

/// The name that scripts see for the kind of system they run on.
pub open spec fn os_name(windows: bool) -> Seq<char> {
    if windows {
        "windows"@
    } else {
        "unix"@
    }
}

impl EnvironmentSpec {
    /// The settings for a build file in a directory: no include path, no
    /// variable, and both switches off.
    pub fn new(path: &str, directory: &str) -> (out: EnvironmentSpec)
        ensures
            out@ == (EnvironmentSpecView {
                path: path@,
                directory: directory@,
                include_paths: Seq::empty(),
                variables: Seq::empty(),
                dry_run: false,
                always_run: false,
            }),
    {
        let out = EnvironmentSpec {
            path: owned(path),
            directory: owned(directory),
            include_paths: Vec::new(),
            variables: Vec::new(),
            dry_run: false,
            always_run: false,
        };
        assert(out@.include_paths =~= Seq::<Seq<char>>::empty());
        assert(out@.variables =~= Seq::<(Seq<char>, Seq<char>)>::empty());
        out
    }

    /// The path of the build file.
    pub fn path(&self) -> (r: &String)
        ensures
            r@ == self@.path,
    {
        &self.path
    }

    /// The directory of the build file.
    pub fn directory(&self) -> (r: &String)
        ensures
            r@ == self@.directory,
    {
        &self.directory
    }

    /// The directories in which modules are looked for.
    pub fn include_paths(&self) -> (r: &Vec<String>)
        ensures
            texts(r@) == self@.include_paths,
    {
        &self.include_paths
    }

    /// The variables, in the order in which they were set.
    pub fn variables(&self) -> (r: &Vec<(String, String)>)
        ensures
            pairs(r@) == self@.variables,
    {
        &self.variables
    }

    /// Whether actions are not to be run.
    pub fn is_dry_run(&self) -> (r: bool)
        ensures
            r == self@.dry_run,
    {
        self.dry_run
    }

    /// Whether tasks run even where they are up to date.
    pub fn is_always_run(&self) -> (r: bool)
        ensures
            r == self@.always_run,
    {
        self.always_run
    }

    /// The global variables of a script context, in the order in which
    /// they are to be set: `OS` first, `windows` or `unix`, then the
    /// variables of these settings.
    pub fn globals(&self, windows: bool) -> (out: Vec<(String, String)>)
        ensures
            pairs(out@) == seq![("OS"@, os_name(windows))] + self@.variables,
    {
        let mut out: Vec<(String, String)> = Vec::new();
        let os = if windows {
            owned("windows")
        } else {
            owned("unix")
        };
        out.push((owned("OS"), os));
        let mut i: usize = 0;
        while i < self.variables.len()
            invariant
                i <= self.variables.len(),
                out@.len() == i + 1,
                out@[0].0@ == "OS"@,
                out@[0].1@ == os_name(windows),
                forall|k: int|
                    0 <= k < i ==> out@[k + 1].0@ == self.variables@[k].0@ && out@[k + 1].1@
                        == self.variables@[k].1@,
            decreases self.variables.len() - i,
        {
            out.push((self.variables[i].0.clone(), self.variables[i].1.clone()));
            i = i + 1;
        }
        assert(pairs(out@) =~= seq![("OS"@, os_name(windows))] + self@.variables);
        out
    }
}

/// The job budget for a machine with `cpus` processors: one less than the
/// number of processors, and at least one.
pub open spec fn budget(cpus: int) -> int {
    if cpus - 1 >= 1 {
        cpus - 1
    } else {
        1
    }
}

/// The job budget for a machine with `cpus` processors.
pub fn default_jobs(cpus: usize) -> (jobs: usize)
    ensures
        jobs == budget(cpus as int),
{
    if cpus >= 2 {
        cpus - 1
    } else {
        1
    }
}

/// `num_cpus::get`: the number of processors that this process may use, as
/// the system reports it.  Nothing is claimed of the number.
#[verifier::external_body]
fn cpu_count() -> (cpus: usize) {
    num_cpus::get()
}

/// `Path::parent` of the standard library: the path without its last
/// component, or nothing where the path has none.  Nothing is claimed of
/// the result, which depends on the path syntax of the system.
#[verifier::external_body]
fn parent_of(path: &str) -> (r: Option<String>) {
    match std::path::Path::new(path).parent() {
        Some(directory) => Some(directory.to_string_lossy().into_owned()),
        None => None,
    }
}

/// The paths of all files that the tasks read or make: for each task in
/// order its inputs and then its outputs.
pub open spec fn watched(tasks: Seq<TaskView>) -> Seq<Seq<char>>
    decreases tasks.len(),
{
    if tasks.len() == 0 {
        Seq::empty()
    } else {
        watched(tasks.drop_last()) + tasks.last().inputs + tasks.last().outputs
    }
}

/// What a [`Runner`] holds, as plain values.
pub struct RunnerView {
    pub targets: Seq<Seq<char>>,
    pub graph: Seq<TaskView>,
    pub jobs: int,
    pub spec: EnvironmentSpecView,
    pub registry: Option<RegistryView>,
}

/// The state in which a runner begins.
pub open spec fn fresh_runner(path: Seq<char>, directory: Seq<char>, jobs: int) -> RunnerView {
    RunnerView {
        targets: Seq::empty(),
        graph: Seq::empty(),
        jobs,
        spec: EnvironmentSpecView {
            path,
            directory,
            include_paths: Seq::empty(),
            variables: Seq::empty(),
            dry_run: false,
            always_run: false,
        },
        registry: None,
    }
}

/// The view of an optional registry.
pub open spec fn registry_option(r: Option<Registry>) -> Option<RegistryView> {
    match r {
        Some(r) => Some(r@),
        None => None,
    }
}

/// The settings of a run, the registry of its tasks once it is loaded, and
/// the graph of the targets that have been resolved.
#[derive(Debug)]
pub struct Runner {
    targets: Vec<String>,
    graph: Graph,
    jobs: usize,
    spec: EnvironmentSpec,
    registry: Option<Registry>,
}

impl View for Runner {
    type V = RunnerView;

    closed spec fn view(&self) -> RunnerView {
        RunnerView {
            targets: texts(self.targets@),
            graph: self.graph@,
            jobs: self.jobs as int,
            spec: self.spec@,
            registry: registry_option(self.registry),
        }
    }
}

/// The invariant of a runner, on its view: the graph holds what a run of
/// the targets resolved so far needs, and nothing stands in its way.
pub open spec fn coherent(s: RunnerView) -> bool {
    match s.registry {
        Some(reg) => distinct(names(reg.tasks)) && resolved(reg, s.targets, s.graph) && resolvable(
            reg,
            s.targets,
        ) && resolution(reg, s.targets) == Ok::<Seq<TaskView>, ErrorView>(s.graph),
        None => s.targets.len() == 0 && s.graph.len() == 0,
    }
}

/// The message of the failure to find the directory of the build file.
pub open spec fn no_directory() -> Seq<char> {
    "failed to parse script directory"@
}

impl Runner {
    /// The invariant of a runner.
    pub open spec fn wf(&self) -> bool {
        coherent(self@)
    }

    /// A runner for the build file at `path` in `directory`, for a machine
    /// with `cpus` processors.  Fails where there is no directory.
    pub fn assemble(path: &str, directory: Option<String>, cpus: usize) -> (r: Result<
        Runner,
        Error,
    >)
        ensures
            match r {
                Ok(runner) => directory matches Some(d) && runner.wf() && runner@ == fresh_runner(
                    path@,
                    d@,
                    budget(cpus as int),
                ),
                Err(e) => directory is None && e@ == ErrorView::LoadFailure(no_directory()),
            },
    {
        let directory = match directory {
            Some(d) => d,
            None => {
                return Err(Error::LoadFailure(owned("failed to parse script directory")));
            },
        };
        let runner = Runner {
            targets: Vec::new(),
            graph: Graph::new(),
            jobs: default_jobs(cpus),
            spec: EnvironmentSpec::new(path, directory.as_str()),
            registry: None,
        };
        assert(runner@.targets =~= Seq::<Seq<char>>::empty());
        Ok(runner)
    }

    /// A runner for the build file at `path`.  The job budget is one less
    /// than the number of processors of the machine, and at least one.
    /// Fails where the path has no directory above it.
    pub fn new(path: &str) -> (r: Result<Runner, Error>)
        ensures
            match r {
                Ok(runner) => runner.wf() && runner@.jobs >= 1 && runner@ == fresh_runner(
                    path@,
                    runner@.spec.directory,
                    runner@.jobs,
                ),
                Err(e) => e@ == ErrorView::LoadFailure(no_directory()),
            },
    {
        let cpus = cpu_count();
        let directory = parent_of(path);
        Runner::assemble(path, directory, cpus)
    }

    /// The path of the build file.
    pub fn path(&self) -> (r: &String)
        ensures
            r@ == self@.spec.path,
    {
        self.spec.path()
    }

    /// The directory of the build file.
    pub fn directory(&self) -> (r: &String)
        ensures
            r@ == self@.spec.directory,
    {
        self.spec.directory()
    }

    /// The settings that a worker needs.
    pub fn spec(&self) -> (r: &EnvironmentSpec)
        ensures
            r@ == self@.spec,
    {
        &self.spec
    }

    /// The job budget.
    pub fn job_budget(&self) -> (n: usize)
        ensures
            n == self@.jobs,
    {
        self.jobs
    }

    /// Makes the run a dry run: tasks are handed out as ever, but no
    /// action is run.
    pub fn dry_run(&mut self)
        ensures
            final(self)@ == (RunnerView {
                spec: EnvironmentSpecView { dry_run: true, ..old(self)@.spec },
                ..old(self)@
            }),
    {
        self.spec.dry_run = true;
    }

    /// Makes every task run, whether or not it is up to date.
    pub fn always_run(&mut self)
        ensures
            final(self)@ == (RunnerView {
                spec: EnvironmentSpecView { always_run: true, ..old(self)@.spec },
                ..old(self)@
            }),
    {
        self.spec.always_run = true;
    }

    /// Sets the job budget.
    pub fn jobs(&mut self, jobs: usize)
        ensures
            final(self)@ == (RunnerView { jobs: jobs as int, ..old(self)@ }),
    {
        self.jobs = jobs;
    }

    /// Adds a directory in which modules are looked for, after those that
    /// are there.
    pub fn include_path(&mut self, path: &str)
        ensures
            final(self)@ == (RunnerView {
                spec: EnvironmentSpecView {
                    include_paths: old(self)@.spec.include_paths.push(path@),
                    ..old(self)@.spec
                },
                ..old(self)@
            }),
    {
        self.spec.include_paths.push(owned(path));
        assert(self@.spec.include_paths =~= old(self)@.spec.include_paths.push(path@));
    }

    /// Sets a variable, after those that are set.
    pub fn set_var(&mut self, name: &str, value: &str)
        ensures
            final(self)@ == (RunnerView {
                spec: EnvironmentSpecView {
                    variables: old(self)@.spec.variables.push((name@, value@)),
                    ..old(self)@.spec
                },
                ..old(self)@
            }),
    {
        self.spec.variables.push((owned(name), owned(value)));
        assert(self@.spec.variables =~= old(self)@.spec.variables.push((name@, value@)));
    }

    /// Whether a registry is loaded.
    pub fn is_loaded(&self) -> (r: bool)
        ensures
            r == self@.registry is Some,
    {
        self.registry.is_some()
    }

    /// Takes the registry that the build file has given.  Where a registry
    /// is loaded already, it stays and the new one is dropped.
    pub fn load(&mut self, registry: Registry)
        requires
            old(self).wf(),
            registry.wf(),
        ensures
            final(self).wf(),
            final(self)@ == if old(self)@.registry is Some {
                old(self)@
            } else {
                RunnerView { registry: Some(registry@), ..old(self)@ }
            },
    {
        if self.registry.is_none() {
            proof {
                lemma_nothing_resolved(registry@);
                assert(self@.targets =~= Seq::<Seq<char>>::empty());
                assert(self@.graph =~= Seq::<TaskView>::empty());
            }
            self.registry = Some(registry);
        }
    }

    /// The name of the default target.  Fails where the build file names
    /// none.
    pub fn default_target(&self) -> (r: Result<String, Error>)
        requires
            self@.registry is Some,
        ensures
            match r {
                Ok(name) => self@.registry.unwrap().default == Some(name@),
                Err(e) => self@.registry.unwrap().default is None && e@
                    == ErrorView::NoDefaultTask,
            },
    {
        match &self.registry {
            Some(registry) => match registry.default_task() {
                Some(name) => Ok(name),
                None => Err(Error::NoDefaultTask),
            },
            None => unreached(),
        }
    }

    /// Resolves more targets: the graph becomes the graph of the targets
    /// resolved before and of these.  Where that fails, the runner stays
    /// as it was, but for tasks that rules may have made on the way.
    fn extend(&mut self, more: &Vec<String>) -> (r: Result<(), Error>)
        requires
            old(self).wf(),
            old(self)@.registry is Some,
        ensures
            final(self).wf(),
            final(self)@.registry is Some,
            same_lookups(final(self)@.registry.unwrap(), old(self)@.registry.unwrap()),
            final(self)@.jobs == old(self)@.jobs,
            final(self)@.spec == old(self)@.spec,
            r is Ok <==> resolvable(old(self)@.registry.unwrap(), old(self)@.targets + texts(more@)),
            match r {
                Ok(_) => final(self)@.targets == old(self)@.targets + texts(more@) && resolution(
                    old(self)@.registry.unwrap(),
                    old(self)@.targets + texts(more@),
                ) == Ok::<Seq<TaskView>, ErrorView>(final(self)@.graph),
                Err(e) => final(self)@.targets == old(self)@.targets && final(self)@.graph == old(self)@.graph && justified(
                    old(self)@.registry.unwrap(),
                    old(self)@.targets + texts(more@),
                    e@,
                ) && resolution(old(self)@.registry.unwrap(), old(self)@.targets + texts(more@))
                    == Err::<Seq<TaskView>, ErrorView>(e@),
            },
    {
        let mut wanted = copy_texts(&self.targets);
        let mut k: usize = 0;
        assert(texts(wanted@) =~= texts(self.targets@) + texts(more@).take(0));
        while k < more.len()
            invariant
                k <= more.len(),
                texts(wanted@) == texts(self.targets@) + texts(more@).take(k as int),
            decreases more.len() - k,
        {
            let ghost before = texts(wanted@);
            wanted.push(more[k].clone());
            assert(texts(wanted@) =~= before.push(more@[k as int]@));
            assert(texts(wanted@) =~= texts(self.targets@) + texts(more@).take(k + 1));
            k = k + 1;
        }
        assert(texts(more@).take(k as int) =~= texts(more@));
        let ghost before = self@.registry.unwrap();
        let mut registry = match self.registry.take() {
            Some(registry) => registry,
            None => unreached(),
        };
        let outcome = resolve(&mut registry, &wanted);
        proof {
            lemma_same_lookups(registry@, before, texts(wanted@), self.graph@);
            lemma_same_lookups(registry@, before, texts(self.targets@), self.graph@);
            lemma_resolution_determined(registry@, before, texts(wanted@));
            lemma_resolution_determined(registry@, before, texts(self.targets@));
        }
        match outcome {
            Ok(graph) => {
                proof {
                    lemma_same_lookups(registry@, before, texts(wanted@), graph@);
                }
                self.registry = Some(registry);
                self.graph = graph;
                self.targets = wanted;
                Ok(())
            },
            Err(e) => {
                self.registry = Some(registry);
                Err(e)
            },
        }
    }

    /// Resolves one more target: the graph becomes the graph of the targets
    /// resolved before and of this one.  Where that fails, the runner stays
    /// as it was, but for tasks that rules may have made on the way.
    pub fn resolve_task(&mut self, name: &str) -> (r: Result<(), Error>)
        requires
            old(self).wf(),
            old(self)@.registry is Some,
        ensures
            final(self).wf(),
            final(self)@.registry is Some,
            same_lookups(final(self)@.registry.unwrap(), old(self)@.registry.unwrap()),
            final(self)@.jobs == old(self)@.jobs,
            final(self)@.spec == old(self)@.spec,
            r is Ok <==> resolvable(old(self)@.registry.unwrap(), old(self)@.targets.push(name@)),
            match r {
                Ok(_) => final(self)@.targets == old(self)@.targets.push(name@) && resolution(
                    old(self)@.registry.unwrap(),
                    old(self)@.targets.push(name@),
                ) == Ok::<Seq<TaskView>, ErrorView>(final(self)@.graph),
                Err(e) => final(self)@.targets == old(self)@.targets && final(self)@.graph == old(self)@.graph && justified(
                    old(self)@.registry.unwrap(),
                    old(self)@.targets.push(name@),
                    e@,
                ) && resolution(old(self)@.registry.unwrap(), old(self)@.targets.push(name@))
                    == Err::<Seq<TaskView>, ErrorView>(e@),
            },
    {
        let mut one: Vec<String> = Vec::new();
        one.push(owned(name));
        assert(self@.targets + texts(one@) =~= self@.targets.push(name@));
        self.extend(&one)
    }

    /// The tasks that the registry holds, in the order of their names, for
    /// the list that is shown to the user.
    pub fn task_list(&self) -> (out: Vec<Task>)
        requires
            self@.registry is Some,
        ensures
            sorted(task_views(out@)),
            task_views(out@).to_multiset() == self@.registry.unwrap().tasks.to_multiset(),
    {
        match &self.registry {
            Some(registry) => by_name(registry.tasks()),
            None => unreached(),
        }
    }

    /// The list of the tasks of the registry as it is shown to the user,
    /// line by line: the tasks in the order of their names, and the
    /// default target where there is one.
    pub fn print_task_list(&self) -> (out: Vec<String>)
        requires
            self@.registry is Some,
        ensures
            exists|list: Seq<TaskView>|
                sorted(list) && list.to_multiset() == self@.registry.unwrap().tasks.to_multiset()
                    && #[trigger] list_text(list, self@.registry.unwrap().default) == texts(out@),
    {
        let tasks = self.task_list();
        let default = match &self.registry {
            Some(registry) => registry.default_task(),
            None => unreached(),
        };
        let out = list_lines(&tasks, &default);
        assert(list_text(task_views(tasks@), self@.registry.unwrap().default) == texts(out@));
        out
    }

    /// The paths of all files that the tasks of the graph read or make:
    /// for each task in the order of the graph its inputs and then its
    /// outputs.  These are the files whose times the oracle asks for.
    pub fn watched_paths(&self) -> (out: Vec<String>)
        ensures
            texts(out@) == watched(self@.graph),
    {
        let tasks = self.graph.tasks();
        let mut out: Vec<String> = Vec::new();
        let mut i: usize = 0;
        assert(texts(out@) =~= watched(self@.graph.take(0)));
        while i < tasks.len()
            invariant
                i <= tasks.len(),
                task_views(tasks@) == self@.graph,
                texts(out@) == watched(self@.graph.take(i as int)),
            decreases tasks.len() - i,
        {
            let ghost before = texts(out@);
            let ghost upto = self@.graph.take(i + 1);
            assert(upto.drop_last() =~= self@.graph.take(i as int));
            assert(upto.last() == tasks@[i as int]@);
            let inputs = tasks[i].inputs();
            let mut k: usize = 0;
            while k < inputs.len()
                invariant
                    k <= inputs.len(),
                    texts(out@) == before + texts(inputs@).take(k as int),
                decreases inputs.len() - k,
            {
                let ghost held = texts(out@);
                out.push(inputs[k].clone());
                assert(texts(out@) =~= held.push(inputs@[k as int]@));
                assert(texts(inputs@).take(k + 1) =~= texts(inputs@).take(k as int).push(
                    inputs@[k as int]@,
                ));
                assert(texts(out@) =~= before + texts(inputs@).take(k + 1));
                k = k + 1;
            }
            assert(texts(inputs@).take(k as int) =~= texts(inputs@));
            let ghost middle = texts(out@);
            let outputs = tasks[i].outputs();
            let mut k: usize = 0;
            while k < outputs.len()
                invariant
                    k <= outputs.len(),
                    texts(out@) == middle + texts(outputs@).take(k as int),
                decreases outputs.len() - k,
            {
                let ghost held = texts(out@);
                out.push(outputs[k].clone());
                assert(texts(out@) =~= held.push(outputs@[k as int]@));
                assert(texts(outputs@).take(k + 1) =~= texts(outputs@).take(k as int).push(
                    outputs@[k as int]@,
                ));
                assert(texts(out@) =~= middle + texts(outputs@).take(k + 1));
                k = k + 1;
            }
            assert(texts(outputs@).take(k as int) =~= texts(outputs@));
            assert(texts(out@) =~= watched(upto));
            i = i + 1;
        }
        assert(self@.graph.take(i as int) =~= self@.graph);
        out
    }

    /// The targets that have been resolved, in order.
    pub fn targets(&self) -> (r: &Vec<String>)
        ensures
            texts(r@) == self@.targets,
    {
        &self.targets
    }

    /// The graph of the targets that have been resolved.
    pub fn graph(&self) -> (r: &Graph)
        ensures
            r@ == self@.graph,
    {
        &self.graph
    }

    /// The coordinator of a run of the targets that have been resolved.
    /// Its schedule is the schedule of the graph for the given files; it
    /// holds every task where the runner is set to run always, and only
    /// the dirty tasks where it is not.
    pub fn start(&self, files: &Snapshot) -> (out: Coordinator)
        requires
            self.wf(),
            files.wf(),
        ensures
            out.wf(),
            schedule_of(self@.graph, files@, !self@.spec.always_run) matches Some(tasks) && out@
                == initial(tasks, self@.jobs),
    {
        match self.graph.solve(!self.spec.is_always_run(), files) {
            Ok(schedule) => Coordinator::new(schedule, self.jobs),
            Err(e) => {
                proof {
                    if let ErrorView::Cycle(path) = e@ {
                        assert(crate::graph::link(self@.graph, path[0], path[1]));
                        if let Some(reg) = self@.registry {
                            lemma_graph_cycle(reg, self@.targets, self@.graph, path);
                        }
                    }
                }
                unreached()
            },
        }
    }

    /// Prepares a run of the given targets: resolves them, in order, and
    /// gives the coordinator of the run for the given files.  Where a
    /// target cannot be resolved, the runner stays as it was, but for
    /// tasks that rules may have made on the way.
    pub fn run(&mut self, tasks: &Vec<String>, files: &Snapshot) -> (r: Result<Coordinator, Error>)
        requires
            old(self).wf(),
            old(self)@.registry is Some,
            files.wf(),
        ensures
            final(self).wf(),
            final(self)@.registry is Some,
            same_lookups(final(self)@.registry.unwrap(), old(self)@.registry.unwrap()),
            final(self)@.jobs == old(self)@.jobs,
            final(self)@.spec == old(self)@.spec,
            r is Ok <==> resolvable(old(self)@.registry.unwrap(), old(self)@.targets + texts(tasks@)),
            match r {
                Ok(out) => out.wf() && final(self)@.targets == old(self)@.targets + texts(tasks@)
                    && resolution(
                    old(self)@.registry.unwrap(),
                    old(self)@.targets + texts(tasks@),
                ) == Ok::<Seq<TaskView>, ErrorView>(final(self)@.graph) && (schedule_of(
                    final(self)@.graph,
                    files@,
                    !old(self)@.spec.always_run,
                ) matches Some(planned) && out@ == initial(planned, old(self)@.jobs)),
                Err(e) => final(self)@.targets == old(self)@.targets && final(self)@.graph == old(self)@.graph && justified(
                    old(self)@.registry.unwrap(),
                    old(self)@.targets + texts(tasks@),
                    e@,
                ) && resolution(old(self)@.registry.unwrap(), old(self)@.targets + texts(tasks@))
                    == Err::<Seq<TaskView>, ErrorView>(e@),
            },
    {
        match self.extend(tasks) {
            Ok(_) => Ok(self.start(files)),
            Err(e) => Err(e),
        }
    }

    /// Prepares a run of the default target.  Fails where the build file
    /// names no default target and where the default target cannot be
    /// resolved.
    pub fn run_default(&mut self, files: &Snapshot) -> (r: Result<Coordinator, Error>)
        requires
            old(self).wf(),
            old(self)@.registry is Some,
            files.wf(),
        ensures
            final(self).wf(),
            final(self)@.registry is Some,
            same_lookups(final(self)@.registry.unwrap(), old(self)@.registry.unwrap()),
            final(self)@.jobs == old(self)@.jobs,
            final(self)@.spec == old(self)@.spec,
            match old(self)@.registry.unwrap().default {
                None => r matches Err(e) && e@ == ErrorView::NoDefaultTask && final(self)@ == old(self)@,
                Some(name) => {
                    &&& r is Ok <==> resolvable(
                        old(self)@.registry.unwrap(),
                        old(self)@.targets.push(name),
                    )
                    &&& r matches Ok(out) ==> out.wf() && final(self)@.targets == old(self)@.targets.push(name) && (schedule_of(
                        final(self)@.graph,
                        files@,
                        !old(self)@.spec.always_run,
                    ) matches Some(planned) && out@ == initial(planned, old(self)@.jobs))
                    &&& r matches Err(e) ==> final(self)@.targets == old(self)@.targets
                        && justified(
                        old(self)@.registry.unwrap(),
                        old(self)@.targets.push(name),
                        e@,
                    )
                },
            },
    {
        let name = match self.default_target() {
            Ok(name) => name,
            Err(e) => {
                assert forall|other: Seq<char>| #[trigger]
                    crate::registry::lookup(self@.registry.unwrap(), other)
                        == crate::registry::lookup(self@.registry.unwrap(), other) by {}
                return Err(e);
            },
        };
        match self.resolve_task(name.as_str()) {
            Ok(_) => Ok(self.start(files)),
            Err(e) => Err(e),
        }
    }
}

/// For no targets, the empty graph is resolved and nothing stands in the
/// way.
pub proof fn lemma_nothing_resolved(reg: RegistryView)
    ensures
        resolved(reg, Seq::empty(), Seq::empty()),
        resolvable(reg, Seq::empty()),
        resolution(reg, Seq::empty()) == Ok::<Seq<TaskView>, ErrorView>(Seq::empty()),
{
    let none = Seq::<Seq<char>>::empty();
    assert(names(Seq::<TaskView>::empty()) =~= none);
    assert forall|name: Seq<char>| !crate::resolve::reachable(reg, none, name) by {
        if crate::resolve::reachable(reg, none, name) {
            let path = choose|path: Seq<Seq<char>>|
                #[trigger] crate::resolve::chain(reg, path) && none.contains(path[0])
                    && path.last() == name;
            assert(none.contains(path[0]));
        }
    }
}

/// The schedule of a run is determined by the targets, by what the
/// registry gives for each name, and by the answers of the oracle: two
/// runners with the same targets and the same switch, whose registries
/// give the same outcome for every lookup, hand out the same schedule
/// whenever the oracle gives the same answer on every task.
pub proof fn lemma_run_determined(
    one: RunnerView,
    other: RunnerView,
    files: Map<Seq<char>, crate::freshness::Stamp>,
    later: Map<Seq<char>, crate::freshness::Stamp>,
)
    requires
        coherent(one),
        coherent(other),
        one.registry is Some,
        other.registry is Some,
        same_lookups(one.registry.unwrap(), other.registry.unwrap()),
        one.targets == other.targets,
        one.spec.always_run == other.spec.always_run,
        forall|i: int|
            0 <= i < one.graph.len() ==> crate::schedule::stale(#[trigger] one.graph[i], files)
                == crate::schedule::stale(one.graph[i], later),
    ensures
        one.graph == other.graph,
        schedule_of(one.graph, files, !one.spec.always_run) == schedule_of(
            other.graph,
            later,
            !other.spec.always_run,
        ),
{
    lemma_resolution_determined(one.registry.unwrap(), other.registry.unwrap(), one.targets);
    crate::schedule::lemma_schedule_determined(one.graph, files, later, !one.spec.always_run);
}

} // verus!
