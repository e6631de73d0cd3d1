use profile_finder::graph::{build_graph, IngestionError, Record};
use profile_finder::matcher::{integral_abs_diff, AreaMatcher, ProfileMatcher};
use profile_finder::profile::Profile;
use profile_finder::search::{find_route, AppData, Query};
use profile_finder::spatial::{
    build_spatial_index, distance_squared, distance_to_point, project_point_to_segment,
    SpatialEdge, FRAC_ONE,
};

fn node(id: u64, x: i64, y: i64, elev: i64) -> Record {
    Record::Node { id: Some(id), x: Some(x), y: Some(y), elev: Some(elev) }
}

fn edge(id: u64, u: u64, v: u64, length: i64, climb: i64) -> Record {
    Record::Edge {
        id: Some(id),
        u: Some(u),
        v: Some(v),
        length: Some(length),
        climb: Some(climb),
        slope: Some(0),
    }
}

fn line_data(second_len: i64) -> AppData {
    let records = vec![
        Record::Meta,
        node(10, 0, 0, 0),
        node(11, 50_000, 0, 0),
        node(12, 50_000 + second_len, 0, 0),
        edge(1, 10, 11, 50_000, 0),
        edge(2, 11, 12, second_len, 0),
    ];
    let graph = build_graph(&records).unwrap();
    let index = build_spatial_index(&graph);
    AppData { graph, index }
}

fn flat_query(radius: i64) -> Query {
    Query { c: (0, 0), d: radius, p: Profile::new(vec![(0, 0), (100_000, 0)]) }
}

fn segment(p_u: (i64, i64), p_v: (i64, i64)) -> SpatialEdge {
    SpatialEdge { p_u, p_v, u: 0, v: 1, e_idx: 0, length: 0, climb: 0, slope: 0, id: 0 }
}

#[test]
fn new_puts_origin_first_and_sorts() {
    let p = Profile::new(vec![(300, 3), (100, 1), (200, 2)]);
    assert_eq!(p.points, vec![(0, 0), (100, 1), (200, 2), (300, 3)]);
}

#[test]
fn new_keeps_existing_origin() {
    let p = Profile::new(vec![(0, 0), (100, 7)]);
    assert_eq!(p.points, vec![(0, 0), (100, 7)]);
}

#[test]
fn new_adds_no_second_origin() {
    let p = Profile::new(vec![(5_000, 1_000), (0, 0)]);
    assert_eq!(p.points, vec![(0, 0), (5_000, 1_000)]);
}

#[test]
fn new_moves_origin_ahead_of_other_points_at_zero() {
    let p = Profile::new(vec![(0, 7), (100, 1), (0, 0)]);
    assert_eq!(p.points, vec![(0, 0), (0, 7), (100, 1)]);
}

#[test]
fn new_keeps_order_of_equal_distances() {
    let p = Profile::new(vec![(0, 5), (50, 1)]);
    assert_eq!(p.points, vec![(0, 0), (0, 5), (50, 1)]);
}

#[test]
fn total_length_is_last_distance() {
    let p = Profile::new(vec![(100, 1), (250, -4)]);
    assert_eq!(p.total_length(), 250);
    assert_eq!(Profile { points: vec![] }.total_length(), 0);
}

#[test]
fn interpolate_ends_and_middle() {
    let p = Profile::new(vec![(100, 10), (200, -30)]);
    assert_eq!(p.interpolate(0), 0);
    assert_eq!(p.interpolate(-5), 0);
    assert_eq!(p.interpolate(50), 5);
    assert_eq!(p.interpolate(150), -10);
    assert_eq!(p.interpolate(200), -30);
    assert_eq!(p.interpolate(1_000), -30);
}

#[test]
fn interpolate_truncates_toward_zero() {
    let p = Profile::new(vec![(3, -1)]);
    assert_eq!(p.interpolate(1), 0);
    assert_eq!(p.interpolate(2), 0);
    let q = Profile::new(vec![(3, 2)]);
    assert_eq!(q.interpolate(2), 1);
}

#[test]
fn integral_of_constant_difference() {
    assert_eq!(integral_abs_diff(10, 3, 3), 30);
    assert_eq!(integral_abs_diff(10, -3, -3), 30);
    assert_eq!(integral_abs_diff(0, 7, 7), 0);
}

#[test]
fn integral_with_midpoint_crossing() {
    assert_eq!(integral_abs_diff(10, 2, -2), 10);
}

#[test]
fn integral_trapezoid_and_uneven_crossing() {
    assert_eq!(integral_abs_diff(10, 2, 4), 30);
    // crossing at 2.5 of 10: triangles 2*2.5/2 + 6*7.5/2 = 25, with t0 rounded to 2
    assert_eq!(integral_abs_diff(10, 2, -6), (2 * 2 + 6 * 8) / 2);
}

#[test]
fn score_of_profile_against_itself_is_zero() {
    let p = Profile::new(vec![(100, 10), (250, -40), (400, 5)]);
    let q = Profile::new(vec![(100, 10), (250, -40), (400, 5)]);
    assert_eq!(AreaMatcher { use_offset: false }.score(&p, &q), 0);
    assert_eq!(AreaMatcher { use_offset: true }.score(&p, &q), 0);
}

#[test]
fn score_raw_area_between_flat_and_ramp() {
    let flat = Profile::new(vec![(100, 0)]);
    let ramp = Profile::new(vec![(100, 100)]);
    assert_eq!(AreaMatcher { use_offset: false }.score(&flat, &ramp), 5_000);
    assert_eq!(AreaMatcher { use_offset: false }.score(&ramp, &flat), 5_000);
}

#[test]
fn score_with_offset_merges_breakpoints() {
    let actual = Profile::new(vec![(50, 10), (100, 10)]);
    let target = Profile::new(vec![(100, 0)]);
    // raw: triangle to 50 (250) plus rectangle 50 x 10 (500)
    assert_eq!(AreaMatcher { use_offset: false }.score(&actual, &target), 750);
    // samples at 0 and 100 give differences 0 and 10: shift -5
    let calibrated = AreaMatcher { use_offset: true }.score(&actual, &target);
    // -5 to 5 over [0, 50]: two triangles split at 25; 5 over [50, 100]: 250
    assert_eq!(calibrated, (5 * 25 + 5 * 25) / 2 + 250);
}

#[test]
fn score_of_zero_length_target_is_zero() {
    let actual = Profile::new(vec![(100, 10)]);
    let target = Profile::new(vec![]);
    assert_eq!(AreaMatcher { use_offset: true }.score(&actual, &target), 0);
}

#[test]
fn calibration_does_not_cancel_a_shifted_profile_pinned_at_origin() {
    let p = Profile::new(vec![(10_000, 0)]);
    let q = Profile::new(vec![(10_000, 0)]);
    let shifted = Profile::new(vec![(0, 5_000), (10_000, 5_000)]);
    let m = AreaMatcher { use_offset: true };
    assert_eq!(m.score(&p, &q), 0);
    assert_eq!(m.score(&shifted, &q), 12_500_000);
}

#[test]
fn projection_inside_and_clamped() {
    let se = segment((0, 0), (100, 0));
    assert_eq!(project_point_to_segment(&(25, 40), &se), ((25, 0), FRAC_ONE / 4));
    assert_eq!(project_point_to_segment(&(-10, 5), &se), ((0, 0), 0));
    assert_eq!(project_point_to_segment(&(150, 5), &se), ((100, 0), FRAC_ONE));
    let dot = segment((7, 7), (7, 7));
    assert_eq!(project_point_to_segment(&(10, 11), &dot), ((7, 7), 0));
}

#[test]
fn distances_to_segment() {
    let se = segment((0, 0), (100, 0));
    assert_eq!(distance_squared(&(103, 4), &se), 25);
    assert_eq!(distance_to_point(&(103, 4), &se), 5);
    assert_eq!(distance_to_point(&(50, 7), &se), 7);
    assert_eq!(distance_squared(&(50, -7), &se), 49);
    assert_eq!(distance_to_point(&(101, 1), &se), 1);
}

#[test]
fn build_graph_counts_and_index() {
    let data = line_data(60_000);
    assert_eq!(data.index.entries.len(), 2);
    let mut ids: Vec<u64> = data.index.entries.iter().map(|e| e.id).collect();
    ids.sort();
    assert_eq!(ids, vec![1, 2]);
    let a = data.index.entries.iter().find(|e| e.id == 1).unwrap();
    assert_eq!(a.p_u, (0, 0));
    assert_eq!(a.p_v, (50_000, 0));
    assert_eq!(a.length, 50_000);
}

#[test]
fn candidates_meet_the_search_square() {
    let data = line_data(60_000);
    let near = data.index.candidates(0, 0, 5_000);
    assert_eq!(near.len(), 1);
    assert_eq!(data.index.entries[near[0]].id, 1);
    let mut both = data.index.candidates(50_000, 0, 1);
    both.sort();
    assert_eq!(both.len(), 2);
    assert!(data.index.candidates(0, 1_000_000, 5_000).is_empty());
}

#[test]
fn ingestion_rejects_missing_field() {
    let records = vec![Record::Node { id: Some(1), x: None, y: Some(0), elev: Some(0) }];
    assert_eq!(build_graph(&records).err(), Some(IngestionError::InvalidField { record: 0 }));
}

#[test]
fn ingestion_rejects_negative_length() {
    let records = vec![node(1, 0, 0, 0), node(2, 1, 0, 0), edge(5, 1, 2, -1, 0)];
    assert_eq!(build_graph(&records).err(), Some(IngestionError::InvalidField { record: 2 }));
}

#[test]
fn ingestion_rejects_unknown_node() {
    let records = vec![node(1, 0, 0, 0), edge(5, 1, 2, 10, 0), node(2, 1, 0, 0)];
    assert_eq!(build_graph(&records).err(), Some(IngestionError::UnknownNode { record: 1 }));
}

#[test]
fn ingestion_rejects_unknown_record_type() {
    let records = vec![Record::Meta, node(1, 0, 0, 0), Record::Unknown];
    assert_eq!(
        build_graph(&records).err(),
        Some(IngestionError::UnknownRecordType { record: 2 })
    );
}

#[test]
fn ingestion_reports_first_fault() {
    let records = vec![Record::Unknown, edge(5, 1, 2, 10, 0)];
    assert_eq!(
        build_graph(&records).err(),
        Some(IngestionError::UnknownRecordType { record: 0 })
    );
}

#[test]
fn route_along_line_graph() {
    let data = line_data(50_000);
    let route = find_route(&data, &flat_query(5_000)).unwrap();
    assert_eq!(route.edge_ids, vec![1, 2]);
    assert_eq!(route.ti, FRAC_ONE);
    assert_eq!(route.si, 0);
}

#[test]
fn route_along_line_graph_with_longer_second_edge_turns_back() {
    // 50 m + 60 m = 110 m lies 10 m past a 100 m target, outside its 5 m
    // tolerance; going back along the first edge gives exactly 100 m
    let data = line_data(60_000);
    let route = find_route(&data, &flat_query(5_000)).unwrap();
    assert_eq!(route.edge_ids, vec![1, 1]);
    assert_eq!(route.si, 0);
    assert_eq!(route.ti, FRAC_ONE);
}

#[test]
fn route_on_first_edge_alone() {
    let data = line_data(50_000);
    let q = Query { c: (0, 0), d: 5_000, p: Profile::new(vec![(48_000, 0)]) };
    let route = find_route(&data, &q).unwrap();
    assert_eq!(route.edge_ids, vec![1]);
    assert_eq!(route.si, 0);
    assert_eq!(route.ti, FRAC_ONE);
}

#[test]
fn no_route_for_zero_length_target() {
    let data = line_data(50_000);
    let q = Query { c: (0, 0), d: 5_000, p: Profile::new(vec![]) };
    assert!(find_route(&data, &q).is_none());
}

#[test]
fn no_route_when_nothing_within_radius() {
    let data = line_data(50_000);
    let q = Query { c: (0, 20_000), d: 5_000, p: Profile::new(vec![(100_000, 0)]) };
    assert!(find_route(&data, &q).is_none());
    let negative = Query { c: (0, 0), d: -1, p: Profile::new(vec![(100_000, 0)]) };
    assert!(find_route(&data, &negative).is_none());
}

#[test]
fn route_search_is_deterministic() {
    let data = line_data(50_000);
    let q = flat_query(5_000);
    let a = find_route(&data, &q).unwrap();
    let b = find_route(&data, &q).unwrap();
    assert_eq!(a.si, b.si);
    assert_eq!(a.ti, b.ti);
    assert_eq!(a.edge_ids, b.edge_ids);
}

#[test]
fn route_prefers_matching_climb() {
    // from the center two ways lead on: a flat one and a 10 m climb
    let records = vec![
        node(1, 0, 0, 0),
        node(2, 50_000, 0, 0),
        node(3, 100_000, 0, 0),
        node(4, 50_000, 50_000, 10_000),
        edge(1, 1, 2, 50_000, 0),
        edge(2, 2, 3, 50_000, 0),
        edge(3, 2, 4, 50_000, 10_000),
    ];
    let graph = build_graph(&records).unwrap();
    let index = build_spatial_index(&graph);
    let data = AppData { graph, index };
    let climb = Query { c: (0, 0), d: 1_000, p: Profile::new(vec![(50_000, 0), (100_000, 10_000)]) };
    assert_eq!(find_route(&data, &climb).unwrap().edge_ids, vec![1, 3]);
    let flat = Query { c: (0, 0), d: 1_000, p: Profile::new(vec![(100_000, 0)]) };
    assert_eq!(find_route(&data, &flat).unwrap().edge_ids, vec![1, 2]);
}

#[test]
fn route_starts_mid_edge() {
    let data = line_data(50_000);
    let q = Query { c: (25_000, 300), d: 1_000, p: Profile::new(vec![(75_000, 0)]) };
    let route = find_route(&data, &q).unwrap();
    assert_eq!(route.edge_ids, vec![1, 2]);
    assert_eq!(route.si, FRAC_ONE / 2);
}
