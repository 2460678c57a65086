use ridgeline::GeoError;
use ridgeline::WayClass;
use ridgeline::WayForm;
use ridgeline::str_eq;
use ridgeline::way_class_of;
use ridgeline::way_form_of;

#[test]
fn known_road_classes_decode() {
    assert_eq!(way_class_of("A Road"), Ok(WayClass::ARoad));
    assert_eq!(way_class_of("B Road"), Ok(WayClass::BRoad));
    assert_eq!(way_class_of("Motorway"), Ok(WayClass::Motorway));
    assert_eq!(way_class_of("Unclassified"), Ok(WayClass::Unclassified));
    assert_eq!(way_class_of("Not Classified"), Ok(WayClass::Unclassified));
    assert_eq!(way_class_of("Classified Unnumbered"), Ok(WayClass::Unclassified));
    assert_eq!(way_class_of("Unknown"), Ok(WayClass::Unknown));
}

#[test]
fn unrecognized_road_class_is_malformed_input() {
    assert_eq!(way_class_of("Bridleway"), Err(GeoError::MalformedInput));
    assert_eq!(way_class_of(""), Err(GeoError::MalformedInput));
    assert_eq!(way_class_of("a road"), Err(GeoError::MalformedInput));
}

#[test]
fn known_road_forms_decode() {
    assert_eq!(way_form_of("Single Carriageway"), Ok(WayForm::SingleCarriageway));
    assert_eq!(way_form_of("Shared Use Carriageway"), Ok(WayForm::SingleCarriageway));
    assert_eq!(way_form_of("Dual Carriageway"), Ok(WayForm::DualCarriageway));
    assert_eq!(
        way_form_of("Collapsed Dual Carriageway"),
        Ok(WayForm::CollapsedDualCarriageway)
    );
    assert_eq!(way_form_of("Slip Road"), Ok(WayForm::SlipRoad));
    assert_eq!(way_form_of("Roundabout"), Ok(WayForm::Roundabout));
    assert_eq!(way_form_of("Guided Busway"), Ok(WayForm::TransitWay));
}

#[test]
fn unrecognized_road_form_is_malformed_input() {
    assert_eq!(way_form_of("Ford"), Err(GeoError::MalformedInput));
}

#[test]
fn string_equality_distinguishes_non_ascii() {
    assert!(str_eq("Señal", "Señal"));
    assert!(!str_eq("Señal", "Senal"));
    assert!(!str_eq("abc", "abcd"));
    assert!(str_eq("", ""));
}
