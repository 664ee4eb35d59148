use localcodepilot::discovery::{catalog_from_detections, Detection, DiscoveryService, ProjectSource, RuntimeDetector};
use localcodepilot::runtimes::RuntimeKind;
use localcodepilot::technologies::TechnologyKind;

struct Folders(Vec<&'static str>);

impl ProjectSource for Folders {
    type Error = String;

    fn candidate_paths(&self) -> Result<Vec<String>, String> {
        Ok(self.0.iter().map(|p| p.to_string()).collect())
    }
}

struct Broken;

impl ProjectSource for Broken {
    type Error = String;

    fn candidate_paths(&self) -> Result<Vec<String>, String> {
        Err("sem acesso".to_string())
    }
}

struct ByName;

impl RuntimeDetector for ByName {
    fn detect(&self, path: &str) -> Vec<RuntimeKind> {
        if path.ends_with("rust") {
            vec![RuntimeKind::Rust]
        } else {
            vec![]
        }
    }

    fn detect_technologies(&self, path: &str) -> Vec<TechnologyKind> {
        if path.ends_with("vue") {
            vec![TechnologyKind::Vue]
        } else {
            vec![]
        }
    }
}

struct RuntimesOnly;

impl RuntimeDetector for RuntimesOnly {
    fn detect(&self, _path: &str) -> Vec<RuntimeKind> {
        vec![RuntimeKind::Python]
    }
}

#[test]
fn discovery_keeps_folders_where_something_was_detected() {
    let service = DiscoveryService::new(
        Folders(vec!["/w/rust", "/w/docs", "/w/vue", "/w/rust"]),
        ByName,
    );
    let catalog = service.discover().unwrap();
    let projects = catalog.projects();
    assert_eq!(projects.len(), 2);
    assert_eq!(projects[0].path, "/w/rust");
    assert_eq!(projects[0].name, "rust");
    assert_eq!(projects[0].runtimes, vec![RuntimeKind::Rust]);
    assert_eq!(projects[1].path, "/w/vue");
    assert_eq!(projects[1].technologies, vec![TechnologyKind::Vue]);
}

#[test]
fn discovery_passes_the_source_error_on() {
    let service = DiscoveryService::new(Broken, ByName);
    assert_eq!(service.discover().err(), Some("sem acesso".to_string()));
}

#[test]
fn detectors_find_no_technology_unless_they_say_so() {
    let catalog = DiscoveryService::new(Folders(vec!["/p"]), RuntimesOnly).discover().unwrap();
    assert_eq!(catalog.projects()[0].technologies, vec![]);
    assert_eq!(catalog.projects()[0].runtimes, vec![RuntimeKind::Python]);
}

#[test]
fn first_detection_of_a_folder_wins() {
    let catalog = catalog_from_detections(vec![
        Detection { path: "/a".to_string(), runtimes: vec![], technologies: vec![] },
        Detection { path: "/a".to_string(), runtimes: vec![RuntimeKind::Php], technologies: vec![] },
        Detection { path: "/a".to_string(), runtimes: vec![RuntimeKind::Rust], technologies: vec![] },
    ]);
    assert_eq!(catalog.projects().len(), 1);
    assert_eq!(catalog.projects()[0].runtimes, vec![RuntimeKind::Php]);
}

#[test]
fn discovery_among_offered_folders_follows_the_offer() {
    let service = DiscoveryService::new(Broken, ByName);
    let catalog = service
        .discover_among(Ok(vec!["/a/vue".to_string(), "/a/none".to_string(), "/a/rust".to_string()]))
        .unwrap();
    let paths: Vec<&str> = catalog.projects().iter().map(|p| p.path.as_str()).collect();
    assert_eq!(paths, ["/a/vue", "/a/rust"]);
    assert_eq!(
        service.discover_among(Err("negado".to_string())).err(),
        Some("negado".to_string())
    );
}

#[test]
fn the_default_detector_reports_no_technologies() {
    assert!(RuntimesOnly.detect_technologies("/qualquer").is_empty());
}
