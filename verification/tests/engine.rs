//! End-to-end exercises of the linked editing ranges engine: index lookups,
//! batch construction, the refresh cycle, and its suppression rules.

use linked_editing::anchors::Anchor;
use linked_editing::anchors::AnchorRange;
use linked_editing::anchors::BufferId;
use linked_editing::anchors::BufferSnapshot;
use linked_editing::groups::LinkGroup;
use linked_editing::pipeline::AnchorPoint;
use linked_editing::pipeline::RefreshPipeline;
use linked_editing::pipeline::SelectionResolution;
use linked_editing::pipeline::build_batch;

fn anchor(id: u64) -> Anchor {
    Anchor { id }
}

fn range(start: u64, end: u64) -> AnchorRange {
    AnchorRange { start: anchor(start), end: anchor(end) }
}

fn snapshot(buffer: BufferId, offsets: &[u64]) -> BufferSnapshot {
    BufferSnapshot { buffer, offsets: offsets.to_vec() }
}

fn point(buffer: BufferId, id: u64) -> Option<AnchorPoint> {
    Some(AnchorPoint { buffer, anchor: anchor(id) })
}

fn selection(head: Option<AnchorPoint>, tail: Option<AnchorPoint>) -> SelectionResolution {
    SelectionResolution { head, tail }
}

/// Runs one refresh cycle: begins it, answers each query from `responses`
/// (one slot per query, `None` standing for a provider failure), and merges.
fn run_cycle(
    pipeline: &mut RefreshPipeline,
    rename_pending_at_start: bool,
    rename_pending_at_merge: bool,
    selections: &Vec<SelectionResolution>,
    snapshot_at_fetch: &BufferSnapshot,
    responses: &[Option<Vec<AnchorRange>>],
    merge_snapshots: &Vec<(BufferId, BufferSnapshot)>,
) -> bool {
    let started = pipeline.begin_cycle(rename_pending_at_start, selections);
    let Some(cycle) = started else {
        return false;
    };
    let mut batches: Vec<(BufferId, Vec<LinkGroup>)> = Vec::new();
    for (i, query) in cycle.queries.iter().enumerate() {
        let Some(Some(response)) = responses.get(i) else {
            continue;
        };
        if let Some(batch) = build_batch(query, snapshot_at_fetch, response) {
            batches.push((query.buffer, batch));
        }
    }
    pipeline.merge_cycle(cycle.generation, rename_pending_at_merge, &batches, merge_snapshots)
}

// Buffer `<div>x</div>`: anchors 0..=3 delimit the opening and closing tag
// names (offsets 1..4 and 9..12), anchor 4 sits inside the opening name.
fn div_snapshot(buffer: BufferId) -> BufferSnapshot {
    snapshot(buffer, &[1, 4, 9, 12, 2])
}

fn div_response() -> Vec<AnchorRange> {
    vec![range(0, 1), range(2, 3)]
}

#[test]
fn end_to_end_div_example() {
    let buffer = BufferId(7);
    let snap = div_snapshot(buffer);
    let mut pipeline = RefreshPipeline::new();
    let selections = vec![selection(point(buffer, 4), point(buffer, 4))];
    let installed = run_cycle(
        &mut pipeline,
        false,
        false,
        &selections,
        &snap,
        &[Some(div_response())],
        &vec![(buffer, div_snapshot(buffer))],
    );
    assert!(installed);
    assert!(!pipeline.index.is_empty());

    // one buffer entry with one group per tag name
    assert_eq!(pipeline.index.entries.len(), 1);
    let (entry_buffer, groups) = &pipeline.index.entries[0];
    assert_eq!(*entry_buffer, buffer);
    assert_eq!(groups.len(), 2);
    assert_eq!(groups[0].primary, range(0, 1));
    assert_eq!(groups[0].siblings, vec![range(2, 3)]);
    assert_eq!(groups[1].primary, range(2, 3));
    assert_eq!(groups[1].siblings, vec![range(0, 1)]);

    // the lookup with the selection span returns the opening tag's group
    let hit = pipeline.index.get(buffer, &range(4, 4), &snap);
    assert!(hit.is_some());
    assert_eq!(hit.unwrap().primary, range(0, 1));

    // edit to `<divX>x</divX>`: the anchors now resolve to shifted offsets
    let edited = snapshot(buffer, &[1, 5, 11, 15, 2]);
    // a stale snapshot still resolves and compares gracefully
    let stale = pipeline.index.get(buffer, &range(4, 4), &snap);
    assert!(stale.is_some());
    // a fresh cycle recomputes the boundaries under the edited buffer
    let installed = run_cycle(
        &mut pipeline,
        false,
        false,
        &selections,
        &edited,
        &[Some(div_response())],
        &vec![(buffer, snapshot(buffer, &[1, 5, 11, 15, 2]))],
    );
    assert!(installed);
    let refreshed = pipeline.index.get(buffer, &range(4, 4), &edited);
    assert!(refreshed.is_some());
    assert_eq!(refreshed.unwrap().primary, range(0, 1));
}

#[test]
fn install_keeps_entries_sorted_and_disjoint() {
    let buffer = BufferId(1);
    // anchors for three separated spans, handed to the provider out of order
    let snap = snapshot(buffer, &[10, 12, 2, 4, 20, 22, 3]);
    let mut pipeline = RefreshPipeline::new();
    let selections = vec![selection(point(buffer, 6), point(buffer, 6))];
    let response = vec![range(0, 1), range(2, 3), range(4, 5)];
    let installed = run_cycle(
        &mut pipeline,
        false,
        false,
        &selections,
        &snap,
        &[Some(response)],
        &vec![(buffer, snapshot(buffer, &[10, 12, 2, 4, 20, 22, 3]))],
    );
    assert!(installed);
    let groups = &pipeline.index.entries[0].1;
    assert_eq!(groups.len(), 3);
    for i in 0..groups.len() - 1 {
        let here = &groups[i].primary;
        let next = &groups[i + 1].primary;
        assert!(snap.resolve(here.start) < snap.resolve(next.start));
        assert!(snap.resolve(here.end) <= snap.resolve(next.start));
    }
}

#[test]
fn lookup_inside_and_outside_groups() {
    let buffer = BufferId(3);
    // two spans at offsets 1..4 and 9..12; query anchors 4..7 probe around them
    let snap = snapshot(buffer, &[1, 4, 9, 12, 2, 3, 6, 0]);
    let mut pipeline = RefreshPipeline::new();
    let selections = vec![selection(point(buffer, 4), point(buffer, 4))];
    let installed = run_cycle(
        &mut pipeline,
        false,
        false,
        &selections,
        &snap,
        &[Some(div_response())],
        &vec![(buffer, snapshot(buffer, &[1, 4, 9, 12, 2, 3, 6, 0]))],
    );
    assert!(installed);
    // a span inside the first group's primary is found
    let hit = pipeline.index.get(buffer, &range(4, 5), &snap);
    assert_eq!(hit.unwrap().primary, range(0, 1));
    // a span between the groups (offsets 6..6) belongs to none
    assert!(pipeline.index.get(buffer, &range(6, 6), &snap).is_none());
    // a span before every group (offsets 0..0) belongs to none
    assert!(pipeline.index.get(buffer, &range(7, 7), &snap).is_none());
    // an unknown buffer holds nothing
    assert!(pipeline.index.get(BufferId(99), &range(4, 5), &snap).is_none());
}

#[test]
fn clique_links_every_pair() {
    let buffer = BufferId(2);
    let snap = snapshot(buffer, &[1, 2, 5, 6, 9, 10, 1]);
    let response = vec![range(4, 5), range(0, 1), range(2, 3)];
    let query = {
        let mut pipeline = RefreshPipeline::new();
        let selections = vec![selection(point(buffer, 6), point(buffer, 6))];
        let cycle = pipeline.begin_cycle(false, &selections).unwrap();
        cycle.queries[0]
    };
    let batch = build_batch(&query, &snap, &response).unwrap();
    // every span appears as primary exactly once, with the two others as siblings
    assert_eq!(batch.len(), 3);
    for expected in &response {
        let matching: Vec<&LinkGroup> =
            batch.iter().filter(|g| g.primary == *expected).collect();
        assert_eq!(matching.len(), 1);
        let group = matching[0];
        assert_eq!(group.siblings.len(), 2);
        assert!(!group.siblings.contains(&group.primary));
        for other in &response {
            if other != expected {
                assert!(group.siblings.contains(other));
            }
        }
    }
    // and the batch is sorted by primary start offset
    assert_eq!(batch[0].primary, range(0, 1));
    assert_eq!(batch[1].primary, range(2, 3));
    assert_eq!(batch[2].primary, range(4, 5));
}

#[test]
fn response_not_containing_query_is_discarded() {
    let buffer = BufferId(2);
    // query spans offsets 0..7, wider than either linked span
    let snap = snapshot(buffer, &[1, 4, 9, 12, 0, 7]);
    let mut pipeline = RefreshPipeline::new();
    let selections = vec![selection(point(buffer, 4), point(buffer, 5))];
    let cycle = pipeline.begin_cycle(false, &selections).unwrap();
    assert_eq!(cycle.queries.len(), 1);
    let batch = build_batch(&cycle.queries[0], &snap, &div_response());
    assert!(batch.is_none());
    // the cycle then installs nothing
    let installed = pipeline.merge_cycle(
        cycle.generation,
        false,
        &Vec::new(),
        &vec![(buffer, snapshot(buffer, &[1, 4, 9, 12, 0, 7]))],
    );
    assert!(installed);
    assert!(pipeline.index.is_empty());
}

#[test]
fn rename_pending_at_start_blocks_the_cycle() {
    let buffer = BufferId(5);
    let snap = div_snapshot(buffer);
    let mut pipeline = RefreshPipeline::new();
    let selections = vec![selection(point(buffer, 4), point(buffer, 4))];
    // a first cycle installs one group pair
    run_cycle(
        &mut pipeline,
        false,
        false,
        &selections,
        &snap,
        &[Some(div_response())],
        &vec![(buffer, div_snapshot(buffer))],
    );
    let before = copy_entries(&pipeline.index.entries);
    let generation_before = pipeline.latest_generation;
    // with a rename pending, begin_cycle refuses: no queries, nothing changed
    assert!(pipeline.begin_cycle(true, &selections).is_none());
    assert_eq!(pipeline.latest_generation, generation_before);
    assert_eq!(pipeline.index.entries, before);
}

#[test]
fn rename_pending_at_merge_discards_the_results() {
    let buffer = BufferId(5);
    let snap = div_snapshot(buffer);
    let mut pipeline = RefreshPipeline::new();
    let selections = vec![selection(point(buffer, 4), point(buffer, 4))];
    // the fetch completes, but a rename became pending before the install
    let installed = run_cycle(
        &mut pipeline,
        false,
        true,
        &selections,
        &snap,
        &[Some(div_response())],
        &vec![(buffer, div_snapshot(buffer))],
    );
    assert!(!installed);
    assert!(pipeline.index.is_empty());
}

#[test]
fn superseded_cycle_is_never_installed() {
    let buffer = BufferId(5);
    let snap = div_snapshot(buffer);
    let mut pipeline = RefreshPipeline::new();
    let selections = vec![selection(point(buffer, 4), point(buffer, 4))];
    let stale = pipeline.begin_cycle(false, &selections).unwrap();
    // a newer cycle starts before the stale one merges
    let fresh = pipeline.begin_cycle(false, &selections).unwrap();
    let batch = build_batch(&stale.queries[0], &snap, &div_response()).unwrap();
    let batches = vec![(buffer, batch)];
    let merge_snapshots = vec![(buffer, div_snapshot(buffer))];
    assert!(!pipeline.merge_cycle(stale.generation, false, &batches, &merge_snapshots));
    assert!(pipeline.index.is_empty());
    // the fresh cycle still installs
    let batch = build_batch(&fresh.queries[0], &snap, &div_response()).unwrap();
    let batches = vec![(buffer, batch)];
    assert!(pipeline.merge_cycle(fresh.generation, false, &batches, &merge_snapshots));
    assert!(!pipeline.index.is_empty());
}

#[test]
fn cross_buffer_selection_contributes_nothing() {
    let here = BufferId(1);
    let there = BufferId(2);
    let mut pipeline = RefreshPipeline::new();
    let selections = vec![
        selection(point(here, 4), point(there, 4)),
        selection(None, point(here, 4)),
        selection(point(here, 4), None),
    ];
    let cycle = pipeline.begin_cycle(false, &selections).unwrap();
    assert_eq!(cycle.queries.len(), 0);
}

#[test]
fn rerunning_a_cycle_reproduces_the_index() {
    let buffer = BufferId(4);
    let snap_a = div_snapshot(buffer);
    let snap_b = div_snapshot(buffer);
    let mut pipeline = RefreshPipeline::new();
    let selections = vec![selection(point(buffer, 4), point(buffer, 4))];
    run_cycle(
        &mut pipeline,
        false,
        false,
        &selections,
        &snap_a,
        &[Some(div_response())],
        &vec![(buffer, div_snapshot(buffer))],
    );
    let first = copy_entries(&pipeline.index.entries);
    run_cycle(
        &mut pipeline,
        false,
        false,
        &selections,
        &snap_b,
        &[Some(div_response())],
        &vec![(buffer, div_snapshot(buffer))],
    );
    assert_eq!(pipeline.index.entries, first);
}

#[test]
fn provider_failure_degrades_to_that_selection_only() {
    let buffer = BufferId(6);
    let snap = snapshot(buffer, &[1, 4, 9, 12, 2, 30, 33, 40, 43, 31]);
    let mut pipeline = RefreshPipeline::new();
    // two selections in one buffer: the first provider call fails
    let selections = vec![
        selection(point(buffer, 4), point(buffer, 4)),
        selection(point(buffer, 9), point(buffer, 9)),
    ];
    let second_response = vec![range(5, 6), range(7, 8)];
    let installed = run_cycle(
        &mut pipeline,
        false,
        false,
        &selections,
        &snap,
        &[None, Some(second_response)],
        &vec![(buffer, snapshot(buffer, &[1, 4, 9, 12, 2, 30, 33, 40, 43, 31]))],
    );
    assert!(installed);
    let groups = &pipeline.index.entries[0].1;
    assert_eq!(groups.len(), 2);
    assert_eq!(groups[0].primary, range(5, 6));
    assert_eq!(groups[1].primary, range(7, 8));
}

#[test]
fn buffer_without_snapshot_is_dropped() {
    let gone = BufferId(8);
    let snap = div_snapshot(gone);
    let mut pipeline = RefreshPipeline::new();
    let selections = vec![selection(point(gone, 4), point(gone, 4))];
    // the buffer was closed between fetch and merge: no snapshot for it
    let installed = run_cycle(
        &mut pipeline,
        false,
        false,
        &selections,
        &snap,
        &[Some(div_response())],
        &Vec::new(),
    );
    assert!(installed);
    assert!(pipeline.index.is_empty());
}

#[test]
fn rename_start_clears_the_index() {
    let buffer = BufferId(5);
    let snap = div_snapshot(buffer);
    let mut pipeline = RefreshPipeline::new();
    let selections = vec![selection(point(buffer, 4), point(buffer, 4))];
    run_cycle(
        &mut pipeline,
        false,
        false,
        &selections,
        &snap,
        &[Some(div_response())],
        &vec![(buffer, div_snapshot(buffer))],
    );
    assert!(!pipeline.index.is_empty());
    pipeline.rename_started();
    assert!(pipeline.index.is_empty());
}

#[test]
fn empty_and_single_span_responses_link_nothing() {
    let buffer = BufferId(9);
    let snap = snapshot(buffer, &[1, 4, 2]);
    let mut pipeline = RefreshPipeline::new();
    let selections = vec![selection(point(buffer, 2), point(buffer, 2))];
    let cycle = pipeline.begin_cycle(false, &selections).unwrap();
    // an empty response contains nothing, so it is discarded
    assert!(build_batch(&cycle.queries[0], &snap, &Vec::new()).is_none());
    // a single-span response contains the query but yields no pair
    let single = build_batch(&cycle.queries[0], &snap, &vec![range(0, 1)]).unwrap();
    assert_eq!(single.len(), 0);
}

/// Deep copy of index entries, for comparing two installs.
fn copy_entries(entries: &Vec<(BufferId, Vec<LinkGroup>)>) -> Vec<(BufferId, Vec<LinkGroup>)> {
    entries
        .iter()
        .map(|(id, groups)| (*id, groups.iter().map(|g| g.duplicate()).collect()))
        .collect()
}
