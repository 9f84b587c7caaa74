use catcheb::mapfile::{load_map, object_name, object_to_entity, EntityKind, LoadError, MapObject, PLAYER_SPAWN_NAME};

fn obj(name: &str, obj_type: &str) -> MapObject {
    MapObject {
        name: name.to_string(),
        obj_type: obj_type.to_string(),
    }
}

#[test]
fn object_goes_by_type_before_name() {
    assert_eq!(object_name(&obj("a", "wall")), "wall");
    assert_eq!(object_name(&obj("turret", "")), "turret");
    assert_eq!(PLAYER_SPAWN_NAME, "spawn");
}

#[test]
fn known_objects_become_entities() {
    assert!(matches!(object_to_entity(&obj("turret", "")), Ok(EntityKind::Turret)));
    assert!(matches!(object_to_entity(&obj("x", "wall")), Ok(EntityKind::Wall)));
    assert!(matches!(object_to_entity(&obj("food_spawn", "")), Ok(EntityKind::FoodSpawn)));
    match object_to_entity(&obj("tree", "")) {
        Err(LoadError::UnknownEntityType(n)) => assert_eq!(n, "tree"),
        _ => panic!("expected an unknown entity type"),
    }
}

#[test]
fn map_objects_are_sorted_into_spawns_and_entities() {
    let objects = vec![obj("spawn", ""), obj("w", "wall"), obj("turret", ""), obj("p", "spawn")];
    let layout = load_map(&objects).unwrap();
    assert_eq!(layout.spawn_points, vec![0, 3]);
    assert_eq!(layout.entities, vec![(1, EntityKind::Wall), (2, EntityKind::Turret)]);
}

#[test]
fn first_unknown_object_fails_the_map() {
    let objects = vec![obj("spawn", ""), obj("bush", ""), obj("rock", "")];
    match load_map(&objects) {
        Err(LoadError::UnknownEntityType(n)) => assert_eq!(n, "bush"),
        _ => panic!("expected an unknown entity type"),
    }
    assert!(load_map(&Vec::new()).unwrap().entities.is_empty());
}
