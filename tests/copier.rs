use blockcopy::chunk_tracker::ChunkTracker;
use blockcopy::control::{job_progress, mode_from_str};
use blockcopy::state::Job;
use blockcopy::backup::{write_gates, Backup, Ledger};
use blockcopy::checksums::{NullChecksums, StoragePolicy};
use blockcopy::chunk::Chunk;
use blockcopy::storage::NullStorage;
use blockcopy::writer::run;
use blockcopy::copier::{needs_sync, Convergence};

#[test]
fn sync_policy() {
    assert!(needs_sync(true, false, false));
    assert!(needs_sync(false, true, true));
    assert!(!needs_sync(false, true, false));
    assert!(!needs_sync(false, false, true));
}

/// One round of sweeps; `during` is called after each copied chunk, as a
/// writer to the source would act. Returns the number of chunks copied.
fn round(c: &mut Convergence, locked: bool, during: &mut dyn FnMut(&mut Convergence, usize, usize)) -> usize {
    let mut copied = 0;
    c.begin_round(locked);
    loop {
        c.begin_sweep();
        while let Some((job, chunk)) = c.next_chunk() {
            copied += 1;
            during(c, job, chunk);
        }
        if !c.sweep_again() {
            break;
        }
    }
    copied
}

#[test]
fn concurrent_writer_needs_more_passes() {
    // 1 MiB in chunks of 64 KiB: 16 chunks.
    let mut c = Convergence::new(&vec![16]);
    let mut marked = false;
    let copied = round(&mut c, false, &mut |c, _job, chunk| {
        if chunk == 9 && !marked {
            c.mark(0, 3);
            c.mark(0, 7);
            marked = true;
        }
    });
    assert_eq!(copied, 18);
    assert!(!c.converged());
    let copied = round(&mut c, false, &mut |_, _, _| {});
    assert_eq!(copied, 0);
    assert!(!c.converged());
    let copied = round(&mut c, true, &mut |_, _, _| {});
    assert_eq!(copied, 0);
    assert!(c.converged());
}

#[test]
fn marks_outside_any_map_are_ignored() {
    let mut c = Convergence::new(&vec![2, 3]);
    round(&mut c, false, &mut |_, _, _| {});
    c.mark(5, 0);
    c.mark(1, 3);
    c.mark(1, 2);
    assert_eq!(c.tracker(1).find_next(0), Some(2));
    let copied = round(&mut c, true, &mut |_, _, _| {});
    assert_eq!(copied, 1);
    assert!(!c.converged());
}

#[test]
fn progress_fits_the_diagram() {
    let tracker = ChunkTracker::new(10);
    let job = Job {
        source: String::from("/dev/a"),
        destination: String::from("a"),
        chunk_size: 4096,
        reuse_output: false,
        format: blockcopy::backup::StorageFormat::Raw,
        storage_policy: StoragePolicy::Full,
        checksum: None,
    };
    let p = job_progress(job.clone(), &tracker, 4);
    assert_eq!(p.chunk_count, 10);
    assert_eq!(p.chunks_per_cell, 4);
    assert_eq!(p.cells.len(), 3);
    let q = job_progress(job, &tracker, 100);
    assert_eq!(q.chunks_per_cell, 1);
    assert_eq!(q.cells.len(), 10);
    assert_eq!(mode_from_str("644"), Some(0o644));
    assert_eq!(mode_from_str("7777"), Some(0o7777));
    assert_eq!(mode_from_str("10000"), None);
    assert_eq!(mode_from_str("8"), None);
    assert_eq!(mode_from_str(""), None);
}

#[test]
fn writer_hands_chunks_to_their_jobs() {
    let make = || Backup::new(NullStorage::new(), Ledger::Null(NullChecksums::new(0, 512, 2)), write_gates(StoragePolicy::Full, false).unwrap(), 512, 1024, String::new());
    let mut destinations = vec![make(), make()];
    let items = vec![(0, Chunk { offset: 0, data: vec![1; 512] }), (1, Chunk { offset: 512, data: vec![2; 512] })];
    assert_eq!(run(&mut destinations, &items), Ok(2));
}
