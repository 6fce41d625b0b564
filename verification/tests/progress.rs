use resonate_library::reference::LookupOp;
use resonate_library::progress::{
    ending, Cancelling, EnrichProgress, EnrichStats, EnrichSummary, Ending, ImportProgress,
    ImportStats, OrganiseProgress, PassOutcome, RetagProgress,
};

#[test]
fn an_enrichment_counts_what_it_studied_recognised_and_was_refused() {
    let progress = EnrichProgress::default();
    progress.note_studied(false);
    progress.note_studied(true);
    progress.note_recognised(true);
    progress.refuse();
    let stats = progress.snapshot();
    assert_eq!(stats.studied, 2);
    assert_eq!(stats.fakes, 1);
    assert_eq!(stats.recognised, 1);
    assert_eq!(stats.misnamed, 1);
    assert_eq!(stats.refused, 1);
    assert!(!progress.is_cancelled());
    Cancelling::cancel(&progress);
    assert!(progress.is_cancelled());
}

#[test]
fn an_organise_counts_each_outcome_on_its_own() {
    let progress = OrganiseProgress::default();
    progress.count_moved(3);
    progress.count_unchanged(2);
    progress.count_collided(1);
    progress.count_failed(4);
    progress.count_unidentified(5);
    progress.count_pruned(6);
    let stats = progress.snapshot();
    assert_eq!(
        (stats.moved, stats.unchanged, stats.collided, stats.failed, stats.unidentified, stats.pruned),
        (3, 2, 1, 4, 5, 6)
    );
    progress.cancel();
    assert!(progress.is_cancelled());
}

#[test]
fn an_import_saves_what_the_files_held_beyond_what_the_vault_holds() {
    let stats = ImportStats {
        was_bytes: 1000,
        bytes: 400,
        ..ImportStats::default()
    };
    assert_eq!(stats.saved(), 600);
    let grown = ImportStats {
        was_bytes: 400,
        bytes: 1000,
        ..ImportStats::default()
    };
    assert_eq!(grown.saved(), 0);
    let progress = ImportProgress::default();
    assert_eq!(progress.snapshot(), ImportStats::default());
}

#[test]
fn a_retagging_counts_each_file_it_passed_over() {
    let progress = RetagProgress::default();
    progress.pass_over();
    progress.pass_over();
    assert_eq!(progress.snapshot().passed_over, 2);
    assert!(!progress.is_cancelled());
    progress.cancel();
    assert!(progress.is_cancelled());
}

#[test]
fn an_enrichment_that_lost_the_reference_says_on_which_lookup_and_is_not_noted_finished() {
    let stats = EnrichStats { albums: 2, ..EnrichStats::default() };
    let lost = ending(PassOutcome::Unreachable(LookupOp::Release));
    assert_eq!(lost, Ending::StoppedBy(LookupOp::Release));
    assert!(!lost.notes_finished());
    assert_eq!(
        lost.summary(stats, false),
        Some(EnrichSummary { stats, cancelled: false, stopped_by: Some(LookupOp::Release) })
    );
}

#[test]
fn an_enrichment_that_ran_is_noted_finished_and_one_that_failed_answers_with_its_fault() {
    let stats = EnrichStats::default();
    let ran = ending(PassOutcome::Ran);
    assert_eq!(ran, Ending::Finished);
    assert!(ran.notes_finished());
    assert_eq!(
        ran.summary(stats, true),
        Some(EnrichSummary { stats, cancelled: true, stopped_by: None })
    );
    let failed = ending(PassOutcome::Failed);
    assert_eq!(failed, Ending::Failed);
    assert!(!failed.notes_finished());
    assert_eq!(failed.summary(stats, false), None);
}
