use berbalang::fixed::SCALE;
use berbalang::profiler::{Block, Profile, Profiler, RegisterReader};
use berbalang::register_pattern::RegisterPatternConfig;

fn profiler_with_blocks(blocks: Vec<Block>) -> Profiler {
    let mut p = Profiler::new(&vec![]);
    for b in blocks {
        p.record_block(b);
    }
    p
}

#[test]
fn test_collate() {
    let profilers: Vec<Profiler> = vec![
        profiler_with_blocks(vec![
            Block { entry: 1, size: 2 },
            Block { entry: 3, size: 4 },
        ]),
        profiler_with_blocks(vec![
            Block { entry: 1, size: 2 },
            Block { entry: 6, size: 6 },
        ]),
    ];

    let profile: Profile = Profile::collate(profilers);

    println!("{} distinct paths", profile.paths.len());
    println!("{} timings", profile.computation_times.len());
}

#[test]
fn test_collate_summaries() {
    let mut erring = profiler_with_blocks(vec![Block { entry: 7, size: 1 }]);
    erring.set_error(21);
    erring.set_computation_time(50);
    let mut erring_again = profiler_with_blocks(vec![Block { entry: 7, size: 1 }]);
    erring_again.set_error(21);
    erring_again.set_computation_time(70);
    let mut other_err = profiler_with_blocks(vec![]);
    other_err.set_error(4);
    let mut clean = profiler_with_blocks(vec![Block { entry: 9, size: 2 }]);
    clean.set_computation_time(10);

    let profile = Profile::collate(vec![erring, erring_again, other_err, clean]);

    // timing list has one entry per profiler, in input order
    assert_eq!(profile.computation_times, vec![50, 70, 0, 10]);

    // histogram counts per code, summing to the number of erring profilers
    assert_eq!(profile.cpu_errors.get(&21).copied(), Some(2));
    assert_eq!(profile.cpu_errors.get(&4).copied(), Some(1));
    assert_eq!(profile.cpu_errors.get(&0).copied(), None);
    let total: usize = profile.cpu_errors.values().sum();
    assert_eq!(total, 3);

    // duplicates collapse: two profilers shared a trace
    assert_eq!(profile.num_distinct_paths(), 3);
    assert!(profile.path_recorded(&vec![Block { entry: 7, size: 1 }]));
    assert!(profile.path_recorded(&vec![Block { entry: 9, size: 2 }]));
    assert!(profile.path_recorded(&Vec::new()));
    assert!(!profile.path_recorded(&vec![Block { entry: 8, size: 1 }]));

    // one canonical register snapshot per profiler
    assert_eq!(profile.registers.len(), 4);
}

struct TableReader {
    fail_on: Option<String>,
}

impl RegisterReader for TableReader {
    fn read_register(&mut self, name: &str) -> Result<u64, u32> {
        if let Some(bad) = &self.fail_on {
            if bad == name {
                return Err(77);
            }
        }
        Ok(name.len() as u64)
    }
}

#[test]
fn test_read_registers_copies_watch_list() {
    let watch = vec!["RAX".to_string(), "RBXX".to_string()];
    let mut p = Profiler::new(&watch);
    let mut emu = TableReader { fail_on: None };
    assert!(p.read_registers(&mut emu).is_ok());
    assert_eq!(p.register(&"RAX".to_string()), Some(3));
    assert_eq!(p.register(&"RBXX".to_string()), Some(4));
    assert_eq!(p.register(&"RIP".to_string()), None);
}

#[test]
fn test_read_registers_surfaces_failure() {
    let watch = vec!["RAX".to_string(), "RBX".to_string()];
    let mut p = Profiler::new(&watch);
    let mut emu = TableReader {
        fail_on: Some("RBX".to_string()),
    };
    assert_eq!(p.read_registers(&mut emu), Err(77));
}

#[test]
fn test_register_pattern_serialization() {
    let mut p = RegisterPatternConfig::new();
    p.insert("RAX".to_string(), 0x0102_0304_0506_0708);
    assert_eq!(
        p.to_bytes(),
        vec![0x08, 0x07, 0x06, 0x05, 0x04, 0x03, 0x02, 0x01]
    );
    p.insert("RBX".to_string(), 1);
    let bytes = p.to_bytes();
    assert_eq!(bytes.len(), 16);
    assert_eq!(bytes[8], 1);
    // in-place update keeps insertion order
    p.insert("RAX".to_string(), 2);
    let bytes = p.to_bytes();
    assert_eq!(bytes[0], 2);
    assert_eq!(p.get(&"RAX".to_string()), Some(2));
    assert_eq!(p.len(), 2);
}

#[test]
fn test_byte_positions_buckets() {
    let bytes = vec![10u8, 20, 30, 40];
    let pairs = berbalang::register_pattern::byte_positions(&bytes, 2);
    assert_eq!(
        pairs,
        vec![[10, 0, 0, 0], [20, 0, 0, 0], [30, 1, 0, 0], [40, 1, 0, 0]]
    );
}

#[test]
fn test_jaccard_identical_patterns() {
    let mut p = RegisterPatternConfig::new();
    p.insert("RAX".to_string(), 0xdead);
    p.insert("RBX".to_string(), 0xbeef);
    for grain in 1..16 {
        assert_eq!(p.jaccard(&p, grain, 16), SCALE);
    }
}

#[test]
fn test_jaccard_symmetric_and_discriminating() {
    let mut p = RegisterPatternConfig::new();
    p.insert("RAX".to_string(), 0xdead_beef_cafe_f00d);
    p.insert("RBX".to_string(), 0x0123_4567_89ab_cdef);
    let mut q = RegisterPatternConfig::new();
    q.insert("RAX".to_string(), 0x5555_5555_5555_5555);
    q.insert("RBX".to_string(), 0xaaaa_aaaa_aaaa_aaaa);
    let pq = p.jaccard(&q, 4, 32);
    let qp = q.jaccard(&p, 4, 32);
    assert_eq!(pq, qp);
    assert!(pq < SCALE, "unrelated patterns must not look identical");
    assert!(pq >= 0);
}
