use tsp_solver::matrix::{block_starts, pair_cost, record_pair, unreachable_matrix};
use tsp_solver::model::INF;
use tsp_solver::types::Mode;
use tsp_solver::url::{classify_url, PlaceRef, UrlError};

#[test]
fn place_link_gives_second_half_of_feature_id() {
    let url = "https://www.google.com/maps/place/Tower/@35.6,139.7,17z/data=!3m1!4b1!4m6!3m5!1s0x60188b:0x2a4bd9f2!8m2!3d35.6!4d139.7";
    assert_eq!(classify_url(url), Ok(PlaceRef::Cid("0x2a4bd9f2".to_string())));
}

#[test]
fn place_link_with_bad_token_is_rejected() {
    let url = "https://www.google.com/maps/place/X/data=!4m2!3m1!1sChIJabc!8m2";
    assert_eq!(classify_url(url), Err(UrlError::InvalidFtid("ChIJabc".to_string())));
}

#[test]
fn search_link_gives_coordinates() {
    let url = "https://www.google.com/maps/search/35.6586,-139.7454?entry=ttu";
    assert_eq!(
        classify_url(url),
        Ok(PlaceRef::Coordinates("35.6586".to_string(), "-139.7454".to_string()))
    );
}

#[test]
fn other_link_is_unrecognized() {
    assert_eq!(classify_url("https://example.com/somewhere"), Err(UrlError::Unrecognized));
}

#[test]
fn fresh_matrix_is_unreachable_off_diagonal() {
    let m = unreachable_matrix(3);
    assert_eq!(m, vec![vec![0, INF, INF], vec![INF, 0, INF], vec![INF, INF, 0]]);
    assert!(unreachable_matrix(0).is_empty());
}

#[test]
fn recorded_pair_is_symmetric() {
    let mut m = unreachable_matrix(3);
    record_pair(&mut m, 0, 2, 17);
    assert_eq!(m, vec![vec![0, INF, 17], vec![INF, 0, INF], vec![17, INF, 0]]);
}

#[test]
fn mode_picks_measurement() {
    assert_eq!(pair_cost(Mode::Distance, Some(1200), Some(15)), Some(1200));
    assert_eq!(pair_cost(Mode::Time, Some(1200), Some(15)), Some(15));
    assert_eq!(pair_cost(Mode::Time, Some(1200), None), None);
}

#[test]
fn blocks_cover_all_indices() {
    assert_eq!(block_starts(25, 10), vec![0, 10, 20]);
    assert_eq!(block_starts(10, 10), vec![0]);
    assert_eq!(block_starts(11, 10), vec![0, 10]);
    assert!(block_starts(0, 10).is_empty());
}
