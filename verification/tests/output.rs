//! Size-rotated output files, kept in memory.

use std::collections::BTreeMap;

use telemetry_edge::output::{file_name, OutputStats, Rotation, FILE_NAME};

struct Files {
    rotation: Rotation,
    content: BTreeMap<String, Vec<u8>>,
}

impl Files {
    fn open(max_bytes: u64, max_files: u32) -> Files {
        Files {
            rotation: Rotation::new(max_bytes, max_files, 0),
            content: BTreeMap::from([(file_name(0), Vec::new())]),
        }
    }

    fn write_line(&mut self, line: &[u8]) {
        if self.rotation.is_due(line.len()) {
            for (from, to) in self.rotation.renames() {
                if let Some(old) = self.content.remove(&file_name(from)) {
                    self.content.insert(file_name(to), old);
                }
            }
            self.content.insert(file_name(0), Vec::new());
            self.rotation.rotated();
        }
        let file = self.content.get_mut(FILE_NAME).unwrap();
        file.extend_from_slice(line);
        file.push(b'\n');
        self.rotation.wrote(line.len());
        assert_eq!(self.rotation.size(), file.len() as u64);
    }

    fn read(&self, name: &str) -> String {
        String::from_utf8(self.content.get(name).cloned().unwrap_or_default()).unwrap()
    }
}

#[test]
fn rotates_by_size_and_keeps_max_files() {
    // 10-byte lines ("lineNNNNN\n"), 25-byte limit: two lines per file.
    let mut w = Files::open(25, 3);
    for i in 0..9 {
        w.write_line(format!("line{i:05}").as_bytes());
    }
    let names: Vec<&String> = w.content.keys().collect();
    assert_eq!(
        names,
        [FILE_NAME, "telemetry.ndjson.1", "telemetry.ndjson.2"]
    );
    assert_eq!(w.read(FILE_NAME), "line00008\n");
    assert_eq!(w.read("telemetry.ndjson.1"), "line00006\nline00007\n");
    assert_eq!(w.read("telemetry.ndjson.2"), "line00004\nline00005\n");
    for name in names {
        assert!(w.content[name].len() <= 25);
    }
}

#[test]
fn single_file_mode_truncates() {
    let mut w = Files::open(25, 1);
    for i in 0..5 {
        w.write_line(format!("line{i:05}").as_bytes());
    }
    assert_eq!(w.read(FILE_NAME), "line00004\n");
    assert_eq!(w.content.len(), 1);
}

#[test]
fn oversized_line_goes_into_its_own_file() {
    let mut w = Files::open(10, 2);
    w.write_line(&[b'x'; 30]);
    w.write_line(b"y");
    assert_eq!(w.read(FILE_NAME), "y\n");
    assert_eq!(w.read("telemetry.ndjson.1").len(), 31);
}

#[test]
fn a_reopened_file_counts_what_it_holds() {
    let rotation = Rotation::new(25, 3, 20);
    assert_eq!(rotation.size(), 20);
    assert!(!rotation.is_due(4));
    assert!(rotation.is_due(5));
    assert_eq!(rotation.renames(), [(1, 2), (0, 1)]);
}

#[test]
fn one_file_is_kept_at_least() {
    assert!(Rotation::new(25, 0, 0).renames().is_empty());
}

#[test]
fn names() {
    assert_eq!(file_name(0), "telemetry.ndjson");
    assert_eq!(file_name(12), "telemetry.ndjson.12");
}

#[test]
fn warns_of_the_first_failure_and_of_every_thousandth() {
    let mut stats = OutputStats::default();
    assert!(!stats.count(true));
    let warned: Vec<u64> = (1..=2500).filter(|_| stats.count(false)).collect();
    assert_eq!(warned, [1, 1000, 2000]);
    assert_eq!((stats.records_written, stats.write_errors), (1, 2500));
}
