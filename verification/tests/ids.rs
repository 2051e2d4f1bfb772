use frame_ops::ids::Mint;
use frame_ops::model::Track;
use frame_ops::parse::parse_track;

fn track_with(ids: &[&str]) -> Track {
    let mut text = String::from("# Demo\n\n## Backlog\n\n");
    for id in ids {
        text.push_str(&format!("- [ ] `{}` task\n", id));
    }
    text.push_str("\n## Done\n");
    parse_track(&text)
}

#[test]
fn scan_only_mints_above_the_live_maximum() {
    let track = track_with(&["DEM-001", "DEM-004"]);
    assert_eq!(Mint::scan_only("DEM", None).next(&track), 5);
}

#[test]
fn an_extra_floor_covers_numbers_not_yet_in_the_track() {
    let track = track_with(&["DEM-002"]);
    let mut mint = Mint::scan_only("DEM", None);
    assert_eq!(mint.next_above(&track, 9), 10);
}

#[test]
fn a_durable_mint_never_offers_a_number_twice() {
    let track = track_with(&["DEM-001"]);
    let mut mint = Mint::new("DEM", None, 0);
    assert_eq!(mint.next(&track), 2);
    assert_eq!(mint.next(&track), 3);
    assert_eq!(mint.next_n(&track, 4), 4);
    assert_eq!(mint.next(&track), 8);
}

#[test]
fn a_scan_only_mint_follows_the_track() {
    let track = track_with(&["DEM-001"]);
    let mut mint = Mint::scan_only("DEM", None);
    assert_eq!(mint.next(&track), 2);
    assert_eq!(mint.next(&track), 2);
}
