//! Discovery: turning candidate folders into a catalog of projects.
use vstd::prelude::*;

use crate::paths::same_path;
use crate::projects::{has_project_at, path_file_name, project_name, Project, ProjectCatalog};
use crate::runtimes::RuntimeKind;
use crate::technologies::TechnologyKind;

verus! {

/// Where candidate project folders come from.
pub trait ProjectSource {
    type Error;

    /// The folders that may hold projects, as text.
    fn candidate_paths(&self) -> Result<Vec<String>, Self::Error>;
}

/// What tells which runtimes and technologies a folder uses.
pub trait RuntimeDetector {
    /// The runtimes used in the folder `path`.
    fn detect(&self, path: &str) -> Vec<RuntimeKind>;

    /// The technologies used in the folder `path`; none unless a detector knows better.
    fn detect_technologies(&self, path: &str) -> (r: Vec<TechnologyKind>)
        default_ensures
            r@.len() == 0,
    {
        Vec::new()
    }
}

/// What was detected in one candidate folder.
#[derive(Debug, Clone, PartialEq, Eq)]
pub struct Detection {
    pub path: String,
    pub runtimes: Vec<RuntimeKind>,
    pub technologies: Vec<TechnologyKind>,
}

/// Whether a detection shows a project: some runtime or technology was found.
pub open spec fn is_project(d: Detection) -> bool {
    d.runtimes@.len() > 0 || d.technologies@.len() > 0
}

/// The detections that become projects, in order: those that show a project in a folder
/// not taken by an earlier one.
pub open spec fn kept_detections(detections: Seq<Detection>) -> Seq<Detection>
    decreases detections.len(),
{
    if detections.len() == 0 {
        seq![]
    } else {
        let before = kept_detections(detections.drop_last());
        let d = detections.last();
        if is_project(d) && !(exists|i: int|
            0 <= i < before.len() && same_path(#[trigger] before[i].path@, d.path@)) {
            before.push(d)
        } else {
            before
        }
    }
}

/// Whether `p` is the project that detection `d` gives.
pub open spec fn project_of(p: Project, d: Detection) -> bool {
    &&& p.path == d.path
    &&& p.runtimes == d.runtimes
    &&& p.technologies == d.technologies
    &&& p.name@ == project_name(path_file_name(d.path@))
    &&& p.modified_at is None
}

/// Whether `detections` are, in order, one detection for each of the folders `paths`.
pub open spec fn detections_of(detections: Seq<Detection>, paths: Seq<String>) -> bool {
    &&& detections.len() == paths.len()
    &&& forall|i: int| 0 <= i < paths.len() ==> (#[trigger] detections[i]).path@ == paths[i]@
}

/// Whether `projects` are, in order, the projects of the kept detections among `detections`.
pub open spec fn catalog_of(projects: Seq<Project>, detections: Seq<Detection>) -> bool {
    &&& projects.len() == kept_detections(detections).len()
    &&& forall|i: int|
        0 <= i < projects.len() ==> project_of(#[trigger] projects[i], kept_detections(detections)[i])
}

/// The catalog of the projects that `detections` show: one per folder (the first detection
/// of a folder wins), skipping folders where nothing was detected, in order.
pub fn catalog_from_detections(detections: Vec<Detection>) -> (r: ProjectCatalog)
    ensures
        catalog_of(r@, detections@),
{
    let mut catalog = ProjectCatalog::default();
    let ghost all = detections@;
    let mut rest = detections;
    let ghost mut seen: int = 0;
    assert(all.skip(0) =~= all);
    while rest.len() > 0
        invariant
            0 <= seen <= all.len(),
            rest@ == all.skip(seen),
            catalog@.len() == kept_detections(all.take(seen)).len(),
            forall|i: int|
                0 <= i < catalog@.len() ==> project_of(
                    #[trigger] catalog@[i],
                    kept_detections(all.take(seen))[i],
                ),
        decreases rest@.len(),
    {
        let d = rest.remove(0);
        let ghost kept = kept_detections(all.take(seen));
        assert(all.take(seen + 1).drop_last() =~= all.take(seen));
        assert(all.take(seen + 1).last() == d);
        assert(rest@ =~= all.skip(seen + 1));
        if d.runtimes.len() > 0 || d.technologies.len() > 0 {
            let ghost path = d.path@;
            let project = Project::new(d.path, d.runtimes).with_technologies(d.technologies);
            let ghost before = catalog@;
            let added = catalog.add(project);
            proof {
                assert(has_project_at(before, path) == (exists|i: int|
                    0 <= i < kept.len() && same_path(#[trigger] kept[i].path@, path))) by {
                    if has_project_at(before, path) {
                        let i = choose|i: int| 0 <= i < before.len() && same_path(#[trigger] before[i].path@, path);
                        assert(project_of(before[i], kept[i]));
                    }
                    if exists|i: int| 0 <= i < kept.len() && same_path(#[trigger] kept[i].path@, path) {
                        let i = choose|i: int| 0 <= i < kept.len() && same_path(#[trigger] kept[i].path@, path);
                        assert(project_of(before[i], kept[i]));
                    }
                }
                assert forall|i: int| 0 <= i < catalog@.len() implies project_of(
                    #[trigger] catalog@[i],
                    kept_detections(all.take(seen + 1))[i],
                ) by {
                    if i < before.len() {
                        assert(catalog@[i] == before[i]);
                    }
                }
            }
        }
        proof {
            seen = seen + 1;
        }
    }
    assert(all.take(all.len() as int) =~= all);
    catalog
}

/// Finds the projects among the folders that `source` offers, asking `detector` what each
/// folder uses.
pub struct DiscoveryService<S, D> {
    source: S,
    detector: D,
}

impl<S, D> DiscoveryService<S, D> where S: ProjectSource, D: RuntimeDetector {
    /// A discovery over the folders of `source`, detected by `detector`.
    pub fn new(source: S, detector: D) -> (r: Self)
        ensures
            r.source() == source,
            r.detector() == detector,
    {
        Self { source, detector }
    }

    /// Where the candidate folders come from.
    pub closed spec fn source(&self) -> S {
        self.source
    }

    /// What tells which runtimes and technologies a folder uses.
    pub closed spec fn detector(&self) -> D {
        self.detector
    }

    /// Whether the detector, asked about the folder of `d`, answered with the runtimes and
    /// technologies of `d`.
    pub open spec fn answered(&self, d: Detection) -> bool {
        exists|p: &str|
            #![trigger call_ensures(D::detect, (&self.detector(), p), d.runtimes)]
            p@ == d.path@ && call_ensures(D::detect, (&self.detector(), p), d.runtimes)
                && call_ensures(D::detect_technologies, (&self.detector(), p), d.technologies)
    }

    /// Whether `r` is what discovery among `candidates` gives: an error of the source is
    /// passed on unchanged; otherwise the catalog is that of the detector's answers for the
    /// offered folders, one per folder and in order (see `catalog_of`).
    pub open spec fn discovered(
        &self,
        candidates: Result<Vec<String>, S::Error>,
        r: Result<ProjectCatalog, S::Error>,
    ) -> bool {
        match candidates {
            Err(e) => r == Err::<ProjectCatalog, S::Error>(e),
            Ok(paths) => r matches Ok(catalog) && exists|detections: Seq<Detection>|
                #![trigger catalog_of(catalog@, detections)]
                detections_of(detections, paths@) && (forall|i: int|
                    0 <= i < detections.len() ==> self.answered(#[trigger] detections[i]))
                    && catalog_of(catalog@, detections),
        }
    }

    /// The catalog of the projects among the candidate folders: each folder in which the
    /// detector finds some runtime or technology becomes a project, once, in the order the
    /// source offers them; an error of the source is passed on unchanged.
    pub fn discover(&self) -> (r: Result<ProjectCatalog, S::Error>)
        ensures
            exists|candidates: Result<Vec<String>, S::Error>|
                #![trigger self.discovered(candidates, r)]
                call_ensures(S::candidate_paths, (&self.source(),), candidates) && self.discovered(
                    candidates,
                    r,
                ),
            r matches Ok(catalog) ==> forall|i: int|
                0 <= i < catalog@.len() ==> (#[trigger] catalog@[i]).runtimes@.len() > 0
                    || catalog@[i].technologies@.len() > 0,
    {
        let candidate_paths = S::candidate_paths;
        let candidates = candidate_paths(&self.source);
        let ghost offered = candidates;
        let r = self.discover_among(candidates);
        assert(call_ensures(S::candidate_paths, (&self.source(),), offered));
        r
    }

    /// The catalog of the projects among `candidates`, the folders that the source offered:
    /// each folder is asked of the detector, in order, and becomes a project when some
    /// runtime or technology is found in it, once per folder. An error of the source is
    /// passed on unchanged.
    pub fn discover_among(&self, candidates: Result<Vec<String>, S::Error>) -> (r: Result<
        ProjectCatalog,
        S::Error,
    >)
        ensures
            self.discovered(candidates, r),
            r matches Ok(catalog) ==> forall|i: int|
                0 <= i < catalog@.len() ==> (#[trigger] catalog@[i]).runtimes@.len() > 0
                    || catalog@[i].technologies@.len() > 0,
    {
        let paths = match candidates {
            Ok(paths) => paths,
            Err(error) => return Err(error),
        };
        let mut detections: Vec<Detection> = Vec::new();
        let mut i: usize = 0;
        while i < paths.len()
            invariant
                i <= paths@.len(),
                detections_of(detections@, paths@.take(i as int)),
                forall|j: int| 0 <= j < detections@.len() ==> self.answered(#[trigger] detections@[j]),
            decreases paths@.len() - i,
        {
            let path = &paths[i];
            let p = path.as_str();
            let detect = D::detect;
            let detect_technologies = D::detect_technologies;
            let runtimes = detect(&self.detector, p);
            let technologies = detect_technologies(&self.detector, p);
            let d = Detection { path: path.clone(), runtimes, technologies };
            proof {
                assert(call_ensures(D::detect, (&self.detector(), p), d.runtimes));
                assert(call_ensures(D::detect_technologies, (&self.detector(), p), d.technologies));
            }
            let ghost before = detections@;
            detections.push(d);
            assert(detections@[i as int] == d);
            assert forall|j: int| 0 <= j < detections@.len() implies self.answered(#[trigger] detections@[j]) by {
                if j < before.len() {
                    assert(detections@[j] == before[j]);
                }
            }
            assert(paths@.take(i + 1) =~= paths@.take(i as int).push(paths@[i as int]));
            i = i + 1;
        }
        assert(paths@.take(paths@.len() as int) =~= paths@);
        let ghost all = detections@;
        let catalog = catalog_from_detections(detections);
        proof {
            lemma_kept_detections_are_projects(all);
            assert forall|i: int| 0 <= i < catalog@.len() implies (#[trigger] catalog@[i]).runtimes@.len() > 0
                || catalog@[i].technologies@.len() > 0 by {
                assert(project_of(catalog@[i], kept_detections(all)[i]));
            }
            assert(catalog_of(catalog@, all));
        }
        Ok(catalog)
    }
}

/// Every kept detection shows a project.
pub proof fn lemma_kept_detections_are_projects(detections: Seq<Detection>)
    ensures
        forall|i: int|
            0 <= i < kept_detections(detections).len() ==> is_project(
                #[trigger] kept_detections(detections)[i],
            ),
    decreases detections.len(),
{
    if detections.len() > 0 {
        lemma_kept_detections_are_projects(detections.drop_last());
        let before = kept_detections(detections.drop_last());
        let r = kept_detections(detections);
        assert forall|i: int| 0 <= i < r.len() implies is_project(#[trigger] r[i]) by {
            if i < before.len() {
                assert(r[i] == before[i]);
            }
        }
    }
}

} // verus!
