use transport_validator::{
    get_oldest_ancestor, pathway_connecting_stops_with_same_ancestor, LocationType, Pathway, Stop,
    StopMap,
};

fn stop(id: &str, parent: Option<&str>, location_type: LocationType) -> Stop {
    Stop {
        id: String::from(id),
        parent_station: parent.map(String::from),
        location_type,
        pathways: Vec::new(),
    }
}

fn pathway(id: &str, from: &str, to: &str) -> Pathway {
    Pathway {
        id: id.to_string(),
        from_stop_id: String::from(from),
        to_stop_id: String::from(to),
    }
}

#[test]
fn test_ancestor_detection() {
    let main_station = stop("main_station00", None, LocationType::StopArea);
    let platform_one = stop("platform_one00", Some("main_station00"), LocationType::StopPoint);
    let platform_two = stop("platform_two00", Some("main_station00"), LocationType::StopPoint);
    let boarding_area_platform_two = stop(
        "platform_two00_boarding_area",
        Some("platform_two00"),
        LocationType::BoardingArea,
    );

    let mut all_stops = StopMap::new();
    all_stops.insert(
        String::from("main_station00"),
        stop("main_station00", None, LocationType::StopArea),
    );
    all_stops.insert(
        String::from("platform_one00"),
        stop("platform_one00", Some("main_station00"), LocationType::StopPoint),
    );
    all_stops.insert(
        String::from("platform_two00"),
        stop("platform_two00", Some("main_station00"), LocationType::StopPoint),
    );

    let ancestor_of_main_station = get_oldest_ancestor(&main_station, &all_stops);
    assert!(ancestor_of_main_station.is_some());

    let ancestor_of_platform_one = get_oldest_ancestor(&platform_one, &all_stops);
    assert!(ancestor_of_platform_one.is_some());
    assert_eq!(ancestor_of_platform_one.unwrap().id, "main_station00");

    let ancestor_of_platform_two = get_oldest_ancestor(&platform_two, &all_stops);
    assert!(ancestor_of_platform_two.is_some());
    assert_eq!(ancestor_of_platform_two.unwrap().id, "main_station00");

    let ancestor_of_boarding_area = get_oldest_ancestor(&boarding_area_platform_two, &all_stops);

    assert!(ancestor_of_boarding_area.is_some());
    assert_eq!(ancestor_of_boarding_area.unwrap().id, "main_station00");
}

#[test]
fn pathway_ancestor_validation_fails_when_stops_have_different_ancestors() {
    let main_station = stop("main_station00", None, LocationType::StopArea);
    let _platform_one_main_station = stop(
        "platform_one00_main_station",
        Some("main_station00"),
        LocationType::StopPoint,
    );
    let west_bahnhof = stop("west_bahnhof00", None, LocationType::StopArea);
    let platform_one_west_bahnhof = stop(
        "platform_one00_west_bahnhof",
        Some("west_bahnhof00"),
        LocationType::StopPoint,
    );

    let defective_pathway = pathway("", "main_station00", "platform_one00_west_bahnhof");

    let mut all_stops = StopMap::new();
    all_stops.insert(String::from("main_station00"), main_station);
    all_stops.insert(
        String::from("platform_one00"),
        stop("platform_one00_west_bahnhof", Some("west_bahnhof00"), LocationType::StopPoint),
    );
    all_stops.insert(String::from("west_bahnhof00"), west_bahnhof);
    all_stops.insert(
        String::from(platform_one_west_bahnhof.id.clone()),
        platform_one_west_bahnhof,
    );

    assert_eq!(pathway_connecting_stops_with_same_ancestor(&defective_pathway, &all_stops), false)
}
