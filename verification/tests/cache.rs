use std::collections::BTreeMap;
use std::io::{Cursor, Read, Write};

use uliab::digest::{hex_digest, Hasher};
use uliab::maven::extraction::{Extract, Extraction, ExtractionStep};
use uliab::maven::fetch::{
    is_intact, recorded_digest, sha_path, Attempt, FetchStep, Source, MAX_ARTIFACT_BYTES,
};
use uliab::maven::graph::KnownPom;
use uliab::maven::resolver::{Artifact, Outcome, Progress};
use uliab::maven::transfer::{Transfer, TransferStep};
use uliab::maven::{
    DeclaredDep, Dependency, MavenRepo, MavenScope, Resolution, ResolveError, Resolver,
};

/// A disk in memory, with a repository below `/repo`, which is also served over
/// HTTP, and a cache below `/cache`.
struct Disk {
    files: BTreeMap<String, Vec<u8>>,
    over_http: bool,
    truncates_jars: bool,
    refuses_moves: bool,
    extractions: u64,
}

fn repo_pom(group: &str, artifact: &str, version: &str) -> String {
    format!(
        "<?xml version=\"1.0\"?><project><modelVersion>4.0.0</modelVersion>\
         <groupId>{group}</groupId><artifactId>{artifact}</artifactId>\
         <version>{version}</version></project>"
    )
}

fn aar_pom(artifact: &str, version: &str) -> String {
    repo_pom("com.example", artifact, version)
        .replace("<project>", "<project><packaging>aar</packaging>")
}

fn zip_of(name: &str, content: &[u8]) -> Vec<u8> {
    let mut writer = zip::ZipWriter::new(Cursor::new(Vec::new()));
    let options = zip::write::SimpleFileOptions::default();
    writer.start_file(name, options).unwrap();
    writer.write_all(content).unwrap();
    writer.finish().unwrap().into_inner()
}

fn absorbed(content: &[u8]) -> Hasher {
    let mut hasher = Hasher::new();
    hasher.update(content);
    hasher
}

impl Disk {
    fn new() -> Disk {
        Disk {
            files: BTreeMap::new(),
            over_http: false,
            truncates_jars: false,
            refuses_moves: false,
            extractions: 0,
        }
    }

    fn place(&mut self, artifact: &str, version: &str, extension: &str, content: &[u8]) {
        self.files.insert(
            format!("/repo/com/example/{artifact}/{version}/{artifact}-{version}.{extension}"),
            content.to_vec(),
        );
    }

    fn write_artifact(&mut self, artifact: &str, version: &str, pom: &str) {
        self.place(artifact, version, "pom", pom.as_bytes());
        let content = format!("{artifact}-{version}");
        self.place(artifact, version, "jar", content.as_bytes());
    }

    fn add(&mut self, artifact: &str, version: &str) {
        self.write_artifact(
            artifact,
            version,
            &repo_pom("com.example", artifact, version),
        );
    }

    fn resolver(&self) -> Resolver {
        let base = if self.over_http {
            "http://repo.example"
        } else {
            "/repo"
        };
        Resolver::new(
            vec![MavenRepo::Custom(base.to_owned())],
            Some("/cache".to_owned()),
            None,
        )
    }

    fn text(&self, path: &str) -> Option<String> {
        self.files
            .get(path)
            .map(|bytes| String::from_utf8(bytes.clone()).unwrap())
    }

    fn recorded(&self, path: &str) -> Option<String> {
        recorded_digest(self.text(&sha_path(path)).as_deref())
    }

    fn is_verified(&self, path: &str) -> bool {
        match (self.text(&sha_path(path)), self.files.get(path)) {
            (Some(recorded), Some(content)) => is_intact(absorbed(content), &recorded),
            _ => false,
        }
    }

    fn rename(&mut self, from: &str, to: String) {
        let content = self.files.remove(from).expect("a partial file");
        self.files.insert(to, content);
    }

    fn append(&mut self, path: &str, bytes: &[u8]) {
        self.files
            .get_mut(path)
            .expect("a partial file")
            .extend_from_slice(bytes);
    }

    fn stream(
        &mut self,
        body: Vec<u8>,
        truncated: bool,
        file: &str,
        cap: Option<u64>,
    ) -> Result<(), String> {
        let mut transfer = Transfer::new(file, cap, self.text(&sha_path(file)));
        let mut part = String::new();
        let mut chunk: Vec<u8> = Vec::new();
        let mut rest = body.as_slice();
        loop {
            transfer = match transfer.step() {
                TransferStep::MakeDir(_) => transfer.succeed(),
                TransferStep::Create(path) => {
                    self.files.insert(path.clone(), Vec::new());
                    part = path;
                    transfer.succeed()
                }
                TransferStep::Read if rest.is_empty() && truncated => {
                    transfer.fail("the connection was closed")
                }
                TransferStep::Read => {
                    let n = rest.len().min(3);
                    chunk = rest[..n].to_vec();
                    rest = &rest[n..];
                    transfer.receive(&chunk)
                }
                TransferStep::Append => {
                    self.append(&part, &chunk);
                    transfer.succeed()
                }
                TransferStep::Record { path, digest } => {
                    self.files.insert(path, digest.into_bytes());
                    transfer.succeed()
                }
                TransferStep::Rename { .. } if self.refuses_moves => transfer.fail("no room"),
                TransferStep::Rename { from, to } => {
                    self.rename(&from, to);
                    transfer.succeed()
                }
                TransferStep::Restore { path, held } => {
                    match held {
                        Some(held) => self.files.insert(path, held.into_bytes()),
                        None => self.files.remove(&path),
                    };
                    transfer.succeed()
                }
                TransferStep::Discard(path) => match self.files.remove(&path) {
                    Some(_) => transfer.succeed(),
                    None => transfer.fail("no such file"),
                },
                TransferStep::Done => return Ok(()),
                TransferStep::Failed(message) => return Err(message),
            };
        }
    }

    fn download(&mut self, source: &Source, file: &str) -> Attempt {
        let (path, cap) = match source {
            Source::File(path) => (path.clone(), None),
            Source::Http(url) => (
                url.replace("http://repo.example", "/repo"),
                Some(MAX_ARTIFACT_BYTES),
            ),
        };
        let Some(body) = self.files.get(&path).cloned() else {
            return Attempt::Miss;
        };
        let truncated = self.truncates_jars && path.ends_with(".jar");
        match self.stream(body, truncated, file, cap) {
            Ok(()) => Attempt::Fetched,
            Err(message) => Attempt::Fail(message),
        }
    }

    fn fetch(
        &mut self,
        resolver: &Resolver,
        coordinate: &Dependency,
        extension: &str,
    ) -> Result<String, ResolveError> {
        let file = resolver.cache_file(coordinate, extension);
        if self.is_verified(&file) {
            return Ok(file);
        }
        let mut attempts = Vec::new();
        loop {
            match resolver.fetch_step(coordinate, extension, &attempts) {
                FetchStep::Done => return Ok(file),
                FetchStep::Try(source) => attempts.push(self.download(&source, &file)),
                FetchStep::Failed(error) => return Err(error),
            }
        }
    }

    fn extract(
        &mut self,
        resolver: &Resolver,
        coordinate: &Dependency,
    ) -> Result<String, ResolveError> {
        let aar = self.fetch(resolver, coordinate, "aar")?;
        let jar = resolver.classes_file(coordinate);
        let mut extraction = Extraction::new(Extract {
            coordinate,
            aar: &aar,
            aar_digest: self.recorded(&aar),
            jar: &jar,
            jar_content: self.files.get(&jar).map(|content| absorbed(content)),
            recorded: self.text(&sha_path(&jar)),
            process: 7,
            nonce: self.extractions,
        });
        let mut archive = Err("not opened".to_owned());
        let mut content: Vec<u8> = Vec::new();
        let mut part = String::new();
        let mut chunk: Vec<u8> = Vec::new();
        loop {
            extraction = match extraction.step() {
                ExtractionStep::Open(path) => {
                    self.extractions += 1;
                    archive = zip::ZipArchive::new(Cursor::new(self.files[&path].clone()))
                        .map_err(|error| error.to_string());
                    extraction.succeed()
                }
                ExtractionStep::Archive => match &archive {
                    Ok(_) => extraction.succeed(),
                    Err(error) => extraction.fail(error),
                },
                ExtractionStep::Find(name) => match archive.as_mut().unwrap().by_name(&name) {
                    Ok(mut entry) => {
                        entry.read_to_end(&mut content).unwrap();
                        extraction.succeed()
                    }
                    Err(error) => extraction.fail(&error.to_string()),
                },
                ExtractionStep::MakeDir(_) => extraction.succeed(),
                ExtractionStep::Create(path) => {
                    self.files.insert(path.clone(), Vec::new());
                    part = path;
                    extraction.succeed()
                }
                ExtractionStep::Read => {
                    let n = content.len().min(5);
                    chunk = content.drain(..n).collect();
                    extraction.receive(&chunk)
                }
                ExtractionStep::Append => {
                    self.append(&part, &chunk);
                    extraction.succeed()
                }
                ExtractionStep::Sync => extraction.succeed(),
                ExtractionStep::Record { path, digest } => {
                    self.files.insert(path, digest.into_bytes());
                    extraction.succeed()
                }
                ExtractionStep::Rename { from, to } => {
                    self.rename(&from, to);
                    extraction.succeed()
                }
                ExtractionStep::Discard(path) => {
                    self.files.remove(&path);
                    extraction.succeed()
                }
                ExtractionStep::Done(path) => return Ok(path),
                ExtractionStep::Failed(error) => return Err(error),
            };
        }
    }

    fn materialize(&mut self, resolver: &Resolver, artifact: &Artifact) -> Outcome {
        let fetched = if artifact.packaging == "aar" {
            self.extract(resolver, &artifact.coordinate)
        } else {
            self.fetch(resolver, &artifact.coordinate, "jar")
        };
        match fetched {
            Ok(path) => Outcome::Path(path),
            Err(error) => Outcome::Failed(error),
        }
    }

    fn resolve(&mut self, coordinate: &str) -> Result<Resolution, ResolveError> {
        let resolver = self.resolver();
        let declared = vec![DeclaredDep {
            scope: MavenScope::Implementation,
            dependency: Dependency::parse(coordinate).unwrap(),
        }];
        let mut poms = Vec::new();
        let mut fetched = Vec::new();
        loop {
            match resolver.resolve(&declared, &poms, &fetched) {
                Progress::Pom(coordinate) => {
                    let path = self.fetch(&resolver, &coordinate, "pom")?;
                    let pom = Resolver::read_pom(&coordinate, &self.files[&path])?;
                    poms.push(KnownPom { coordinate, pom });
                }
                Progress::Artifacts(artifacts) => fetched.push(
                    artifacts
                        .iter()
                        .map(|artifact| self.materialize(&resolver, artifact))
                        .collect(),
                ),
                Progress::Done(resolution) => return Ok(resolution),
                Progress::Failed(error) => return Err(error),
            }
        }
    }

    fn part_files(&self) -> Vec<&String> {
        self.files
            .keys()
            .filter(|path| path.contains(".part"))
            .collect()
    }
}

fn jar_names(paths: &[String]) -> Vec<String> {
    paths
        .iter()
        .map(|path| path.rsplit('/').next().unwrap().to_owned())
        .collect()
}

#[test]
fn aar_materialization_extracts_classes_jar() {
    let mut disk = Disk::new();
    disk.write_artifact("aarlib", "1.0", &aar_pom("aarlib", "1.0"));
    disk.place(
        "aarlib",
        "1.0",
        "aar",
        &zip_of("classes.jar", b"fake classes"),
    );
    let resolution = disk.resolve("com.example:aarlib:1.0").expect("resolves");
    assert_eq!(
        jar_names(&resolution.classpath.compile),
        vec!["aarlib-1.0-classes.jar"]
    );
    let joined = &resolution.classpath.compile[0];
    assert_eq!(disk.files[joined], b"fake classes");
    assert!(
        !resolution
            .notes
            .iter()
            .any(|note| note.contains("only jar and aar")),
        "aar packaging must not be flagged as unsupported: {:?}",
        resolution.notes
    );
    assert!(disk.part_files().is_empty());
}

#[test]
fn aar_extracted_jar_path_is_stable_for_unchanged_coordinate() {
    let mut disk = Disk::new();
    disk.write_artifact("aarlib", "1.0", &aar_pom("aarlib", "1.0"));
    disk.place(
        "aarlib",
        "1.0",
        "aar",
        &zip_of("classes.jar", b"fake classes"),
    );
    let first = disk.resolve("com.example:aarlib:1.0").expect("resolves");
    let first_path = first.classpath.compile[0].clone();
    let second = disk.resolve("com.example:aarlib:1.0").expect("resolves");
    assert_eq!(second.classpath.compile, vec![first_path]);
    assert_eq!(disk.extractions, 1);
}

#[test]
fn aar_re_extracts_when_the_aar_changes() {
    let mut disk = Disk::new();
    let version = "1.0-SNAPSHOT";
    let coordinate = format!("com.example:aarlib:{version}");
    disk.write_artifact("aarlib", version, &aar_pom("aarlib", version));
    disk.place("aarlib", version, "aar", &zip_of("classes.jar", b"first"));
    let first = disk.resolve(&coordinate).expect("resolves");
    let classes = first.classpath.compile[0].clone();
    assert_eq!(disk.files[&classes], b"first");

    disk.place("aarlib", version, "aar", &zip_of("classes.jar", b"second"));
    let aar_cache = classes.replace("-classes.jar", ".aar");
    assert!(disk.files.remove(&aar_cache).is_some());
    assert!(disk.files.remove(&format!("{aar_cache}.sha256")).is_some());

    let second = disk.resolve(&coordinate).expect("resolves");
    assert_eq!(
        disk.files[&second.classpath.compile[0]], b"second",
        "a refetched AAR must invalidate the previously-extracted classes.jar"
    );
}

#[test]
fn a_corrupted_jar_heals() {
    let mut disk = Disk::new();
    disk.write_artifact("aarlib", "1.0", &aar_pom("aarlib", "1.0"));
    disk.place(
        "aarlib",
        "1.0",
        "aar",
        &zip_of("classes.jar", b"fake classes"),
    );
    let first = disk.resolve("com.example:aarlib:1.0").expect("resolves");
    let classes = first.classpath.compile[0].clone();
    disk.files.insert(classes.clone(), b"garbage".to_vec());
    let second = disk.resolve("com.example:aarlib:1.0").expect("resolves");
    assert_eq!(second.classpath.compile, vec![classes.clone()]);
    assert_eq!(disk.files[&classes], b"fake classes");
    disk.files.remove(&classes);
    disk.resolve("com.example:aarlib:1.0").expect("resolves");
    assert_eq!(disk.files[&classes], b"fake classes");
    assert_eq!(disk.extractions, 3);
}

#[test]
fn aar_that_is_not_a_zip_is_an_archive_error() {
    let mut disk = Disk::new();
    disk.write_artifact("badaar", "1.0", &aar_pom("badaar", "1.0"));
    disk.place("badaar", "1.0", "aar", b"this is not a zip archive");
    let error = disk
        .resolve("com.example:badaar:1.0")
        .expect_err("a non-zip aar must fail");
    assert!(
        matches!(error, ResolveError::Archive { .. }),
        "expected Archive error, got {}",
        error.message()
    );
}

#[test]
fn aar_missing_classes_jar_is_an_archive_error() {
    let mut disk = Disk::new();
    disk.write_artifact("badaar", "1.0", &aar_pom("badaar", "1.0"));
    disk.place("badaar", "1.0", "aar", &zip_of("not-classes.txt", b"nope"));
    let error = disk
        .resolve("com.example:badaar:1.0")
        .expect_err("aar without classes.jar must fail");
    assert!(
        matches!(error, ResolveError::Archive { .. }),
        "expected Archive error, got {}",
        error.message()
    );
    assert!(error.message().starts_with(
        "unpacking archive for com.example:badaar:1.0: no classes.jar in \
         /cache/com/example/badaar/1.0/badaar-1.0.aar: "
    ));
}

#[test]
fn cache_serves_a_second_resolution() {
    let mut disk = Disk::new();
    disk.add("one", "1.0");
    let first = disk.resolve("com.example:one:1.0").expect("resolves");
    let jar_path = &first.classpath.compile[0];
    let pom_path = jar_path.replace(".jar", ".pom");
    assert!(disk.files.contains_key(&pom_path));
    assert!(disk.files.contains_key(&sha_path(jar_path)));
    assert!(disk.files.contains_key(&sha_path(&pom_path)));
    assert_ne!(sha_path(jar_path), sha_path(&pom_path));

    disk.files.retain(|path, _| !path.starts_with("/repo/com"));
    let cached = disk
        .resolve("com.example:one:1.0")
        .expect("served from cache without the repository");
    assert_eq!(first.classpath.compile, cached.classpath.compile);
}

#[test]
fn a_corrupted_cache_entry_is_refetched() {
    let mut disk = Disk::new();
    disk.add("one", "1.0");
    disk.resolve("com.example:one:1.0").expect("resolves");
    let jar_path = disk
        .resolve("com.example:one:1.0")
        .expect("resolves")
        .classpath
        .compile[0]
        .clone();
    disk.files.insert(jar_path.clone(), b"corrupted".to_vec());
    disk.resolve("com.example:one:1.0")
        .expect("refetches and recovers");
    assert_eq!(disk.files[&jar_path], b"one-1.0");
}

#[test]
fn download_records_the_streamed_digest() {
    let mut disk = Disk::new();
    disk.over_http = true;
    disk.add("one", "1.0");
    let resolution = disk.resolve("com.example:one:1.0").expect("resolves");
    let jar_path = &resolution.classpath.compile[0];
    let digest = hex_digest(&disk.files[jar_path]);
    let recorded = disk.text(&sha_path(jar_path)).unwrap();
    assert_eq!(recorded.trim(), digest);
}

#[test]
fn a_truncated_download_leaves_no_part_file() {
    let mut disk = Disk::new();
    disk.over_http = true;
    disk.truncates_jars = true;
    disk.add("broken", "1.0");
    let error = disk
        .resolve("com.example:broken:1.0")
        .expect_err("truncated jar fails resolution");
    assert!(
        matches!(error, ResolveError::Fetch { .. }),
        "{}",
        error.message()
    );
    assert!(
        disk.part_files().is_empty(),
        "partial downloads must be removed"
    );
    assert!(!disk
        .files
        .contains_key("/cache/com/example/broken/1.0/broken-1.0.jar"));
}

#[test]
fn a_body_beyond_its_cap_is_refused() {
    let mut disk = Disk::new();
    assert_eq!(
        disk.stream(b"abcdef".to_vec(), false, "/cache/a.jar", Some(5)),
        Err("artifact exceeds the 5 byte limit".to_owned())
    );
    assert!(disk.files.is_empty());
    assert_eq!(
        disk.stream(b"abcdef".to_vec(), false, "/cache/a.jar", Some(6)),
        Ok(())
    );
    assert_eq!(disk.files["/cache/a.jar"], b"abcdef");
}

#[test]
fn a_failed_download_leaves_the_cache_as_it_was() {
    let mut disk = Disk::new();
    disk.stream(b"old".to_vec(), false, "/cache/a.jar", None)
        .unwrap();
    let before = disk.files.clone();
    disk.refuses_moves = true;
    assert_eq!(
        disk.stream(b"new".to_vec(), false, "/cache/a.jar", None),
        Err("moving '/cache/a.jar.part': no room".to_owned())
    );
    assert_eq!(disk.files, before);
    assert!(disk
        .stream(b"new".to_vec(), false, "/cache/b.jar", None)
        .is_err());
    assert_eq!(disk.files, before);
}

/// The download of `/cache/g/a.jar` behind `done` steps that went well, with the
/// body `abc`.
fn transfer_behind(done: usize) -> Transfer {
    let mut transfer = Transfer::new("/cache/g/a.jar", None, Some("old".to_owned()));
    let mut chunks = vec![Vec::new(), b"abc".to_vec()];
    for _ in 0..done {
        transfer = match transfer.step() {
            TransferStep::Read => transfer.receive(&chunks.pop().unwrap()),
            _ => transfer.succeed(),
        };
    }
    transfer
}

#[test]
fn a_download_takes_its_steps_in_order() {
    let steps: Vec<TransferStep> = (0..8).map(|done| transfer_behind(done).step()).collect();
    assert_eq!(
        steps,
        vec![
            TransferStep::MakeDir("/cache/g".to_owned()),
            TransferStep::Create("/cache/g/a.jar.part".to_owned()),
            TransferStep::Read,
            TransferStep::Append,
            TransferStep::Read,
            TransferStep::Record {
                path: "/cache/g/a.jar.sha256".to_owned(),
                digest: "ba7816bf8f01cfea414140de5dae2223b00361a396177a9cb410ff61f20015ad"
                    .to_owned(),
            },
            TransferStep::Rename {
                from: "/cache/g/a.jar.part".to_owned(),
                to: "/cache/g/a.jar".to_owned(),
            },
            TransferStep::Done,
        ]
    );
    assert_eq!(transfer_behind(2).size(), 0);
    assert_eq!(transfer_behind(4).size(), 3);
}

#[test]
fn a_download_reports_its_first_fault() {
    let message = |done: usize| {
        let mut failed = transfer_behind(done).fail("why");
        if done >= 5 {
            assert_eq!(
                failed.step(),
                TransferStep::Restore {
                    path: "/cache/g/a.jar.sha256".to_owned(),
                    held: Some("old".to_owned()),
                }
            );
            failed = failed.succeed();
        }
        assert_eq!(
            failed.step(),
            TransferStep::Discard("/cache/g/a.jar.part".to_owned())
        );
        match failed.fail("no such file").succeed().step() {
            TransferStep::Failed(message) => message,
            step => panic!("{step:?}"),
        }
    };
    assert_eq!(message(0), "creating cache directory '/cache/g'");
    assert_eq!(message(1), "creating '/cache/g/a.jar.part': why");
    assert_eq!(message(2), "reading download: why");
    assert_eq!(message(3), "writing '/cache/g/a.jar.part': why");
    assert_eq!(message(5), "recording '/cache/g/a.jar.sha256': why");
    assert_eq!(message(6), "moving '/cache/g/a.jar.part': why");
    assert_eq!(transfer_behind(7).fail("why").step(), TransferStep::Done);
}

/// The extraction of `/c/a.aar` behind `done` steps that went well, with a jar of
/// three bytes.
fn extraction_behind(digest: Option<&str>, done: usize) -> Extraction {
    let coordinate = Dependency::parse("g:a:1").unwrap();
    let mut extraction = Extraction::new(Extract {
        coordinate: &coordinate,
        aar: "/c/a.aar",
        aar_digest: digest.map(str::to_owned),
        jar: "/c/a-classes.jar",
        jar_content: None,
        recorded: None,
        process: 7,
        nonce: 12,
    });
    let mut chunks = vec![Vec::new(), b"abc".to_vec()];
    for _ in 0..done {
        extraction = match extraction.step() {
            ExtractionStep::Read => extraction.receive(&chunks.pop().unwrap()),
            _ => extraction.succeed(),
        };
    }
    extraction
}

#[test]
fn an_extraction_takes_its_steps_in_order() {
    let steps: Vec<ExtractionStep> = (0..12)
        .map(|done| extraction_behind(Some("aa"), done).step())
        .collect();
    let part = "/c/a-classes.jar.part-7-12".to_owned();
    assert_eq!(
        steps,
        vec![
            ExtractionStep::Open("/c/a.aar".to_owned()),
            ExtractionStep::Archive,
            ExtractionStep::Find("classes.jar".to_owned()),
            ExtractionStep::MakeDir("/c".to_owned()),
            ExtractionStep::Create(part.clone()),
            ExtractionStep::Read,
            ExtractionStep::Append,
            ExtractionStep::Read,
            ExtractionStep::Sync,
            ExtractionStep::Record {
                path: "/c/a-classes.jar.sha256".to_owned(),
                digest: "aa\nba7816bf8f01cfea414140de5dae2223b00361a396177a9cb410ff61f20015ad"
                    .to_owned(),
            },
            ExtractionStep::Rename {
                from: part,
                to: "/c/a-classes.jar".to_owned(),
            },
            ExtractionStep::Done("/c/a-classes.jar".to_owned()),
        ]
    );
    assert_eq!(
        extraction_behind(None, 9).step(),
        ExtractionStep::Record {
            path: "/c/a-classes.jar.sha256".to_owned(),
            digest: "\nba7816bf8f01cfea414140de5dae2223b00361a396177a9cb410ff61f20015ad".to_owned(),
        }
    );
}

#[test]
fn an_extraction_reports_its_first_fault() {
    let message = |done: usize| {
        let mut failed = extraction_behind(Some("aa"), done).fail("why");
        if done >= 4 {
            assert_eq!(
                failed.step(),
                ExtractionStep::Discard("/c/a-classes.jar.part-7-12".to_owned())
            );
            failed = failed.fail("no such file");
        }
        match failed.succeed().step() {
            ExtractionStep::Failed(error) => error
                .message()
                .replace("unpacking archive for g:a:1: ", ""),
            step => panic!("{step:?}"),
        }
    };
    assert_eq!(message(0), "opening /c/a.aar: why");
    assert_eq!(message(1), "reading /c/a.aar: why");
    assert_eq!(message(2), "no classes.jar in /c/a.aar: why");
    assert_eq!(message(3), "creating /c: why");
    assert_eq!(message(4), "creating /c/a-classes.jar.part-7-12: why");
    assert_eq!(message(5), "reading /c/a-classes.jar.part-7-12: why");
    assert_eq!(message(6), "writing /c/a-classes.jar.part-7-12: why");
    assert_eq!(message(8), "writing /c/a-classes.jar.part-7-12: why");
    assert_eq!(message(9), "recording /c/a-classes.jar.sha256: why");
    assert_eq!(message(10), "finishing /c/a-classes.jar: why");
}

#[test]
fn an_extraction_has_a_limit() {
    let chunk = vec![0; 33_554_432];
    let mut extraction = extraction_behind(None, 5);
    for _ in 0..8 {
        extraction = extraction.receive(&chunk);
        assert_eq!(extraction.step(), ExtractionStep::Append);
        extraction = extraction.succeed();
    }
    let refused = extraction.receive(b"x").succeed();
    match refused.step() {
        ExtractionStep::Failed(error) => assert_eq!(
            error.message(),
            "unpacking archive for g:a:1: classes.jar in /c/a.aar exceeds the 268435456 byte limit"
        ),
        step => panic!("{step:?}"),
    }
}
