use synthetic_core::generator::{create_resource_directory, generate_economic_scenario, register_recipes};
use synthetic_core::network::{initialize_simulation_world, tick_simulation_world, RecipeRegistry};
use synthetic_core::simulation::{converter_dtos, flow_edge_dtos, resource_dtos, storage_dtos};

#[test]
fn test_scenario_generation_counts() {
    let mut world = initialize_simulation_world();
    generate_economic_scenario(&mut world);

    assert_eq!(resource_dtos(&world).len(), 40);
    assert_eq!(converter_dtos(&world).len(), 200);
    assert_eq!(storage_dtos(&world).len(), 400);
    assert_eq!(flow_edge_dtos(&world).len(), 250);
}

#[test]
fn test_simulation_session_advances_without_errors() {
    let mut world = initialize_simulation_world();
    generate_economic_scenario(&mut world);
    assert_eq!(world.current_tick(), 0);
    assert_eq!(converter_dtos(&world).len(), 200);

    for _ in 0..10 {
        tick_simulation_world(&mut world).expect("tick should succeed");
        assert!(world.current_tick() > 0);
    }
    assert_eq!(world.current_tick(), 10);
}

#[test]
fn test_resource_directory_names() {
    let directory = create_resource_directory();
    assert_eq!(directory.resources.len(), 40);
    assert_eq!(directory.resources[0].id, 1);
    assert_eq!(directory.resources[0].name, "Raw Resource 1");
    assert_eq!(directory.resources[39].id, 40);
    assert_eq!(directory.resources[39].name, "Consumer Good 10");
    assert_eq!(directory.resources[10].name, "Intermediate Good 1");
    assert_eq!(directory.resources[29].name, "Intermediate Good 20");
}

#[test]
fn test_standard_recipes_registered() {
    let mut registry = RecipeRegistry::new();
    register_recipes(&mut registry);
    for id in 1..=50u32 {
        assert_eq!(registry.get(id).expect("recipe").id, id);
    }
    assert!(registry.get(51).is_none());
    let mine = registry.get(1).unwrap();
    assert!(mine.inputs.is_empty());
    assert_eq!(mine.outputs.len(), 1);
}

#[test]
fn test_scenario_edges_start_idle_and_distinct() {
    let mut world = initialize_simulation_world();
    generate_economic_scenario(&mut world);
    let edges = flow_edge_dtos(&world);
    assert!(edges.iter().all(|e| e.in_transit == 0));
    assert!(edges.windows(2).all(|w| w[0].edge_id < w[1].edge_id));
    assert_eq!(world.next_entity, 850);
}
