use ridgeline::Army;
use ridgeline::City;
use ridgeline::Location;
use ridgeline::Player;
use ridgeline::PlayerType;
use ridgeline::Spy;
use ridgeline::UnitTrait;

#[test]
fn units_report_their_names() {
    let army = Army { name: "First Army".to_string() };
    assert_eq!(army.get_name(), "First Army");
    let spy = Spy { name: "Asset".to_string() };
    assert_eq!(spy.get_name(), "Asset");
}

#[test]
fn new_player_holds_no_cities() {
    let p = Player::new(PlayerType::NotAssigned);
    assert!(p.cities.is_empty());
    assert_eq!(p.player_type, PlayerType::NotAssigned);
}

#[test]
fn assign_all_gives_every_location_index() {
    let locations = vec![
        Location { name: "a".to_string(), x: 0, y: 0, population: 1, region_id: None },
        Location { name: "b".to_string(), x: 1, y: 1, population: 2, region_id: Some(4) },
    ];
    let mut p = Player::new(PlayerType::NotAssigned);
    p.assign_all(&locations);
    assert_eq!(p.cities, vec![City { location: 0 }, City { location: 1 }]);
}

#[test]
fn change_ownership_appends_the_city() {
    let mut p = Player::new(PlayerType::Player);
    p.change_ownership(City { location: 7 });
    assert_eq!(p.cities, vec![City { location: 7 }]);
}
