use h3o::{LatLng, Resolution};
use synthetic_core::network::{
    initialize_simulation_world, Converter, Entity, FlowEdge, FlowQueue, ResourceAmount, Storage, TransitPacket,
};
use synthetic_core::simulation::{
    astro_node_dtos, build_world_from_snapshot, converter_dtos, flow_edge_dtos, in_transit_sums_fit,
    resource_dtos, storage_dtos, try_surface_node_dtos, ResourceDirectory,
};
use synthetic_core::{AstroNode, AstroNodeDto, ResourceDto, SurfaceNode, SurfaceNodeDto};

#[test]
fn test_dto_serialization_from_world() {
    let mut world = initialize_simulation_world();
    world.insert_resource_directory(ResourceDirectory::new(vec![
        ResourceDto { id: 1, name: "Iron Ore".to_string() },
        ResourceDto { id: 2, name: "Steel Plate".to_string() },
    ]));

    let earth = world.spawn_astro_node(AstroNode::new(1, 6371, 3));
    let cell = LatLng::new(51.5074, -0.1278).expect("valid coord").to_cell(Resolution::Three);
    let facility = world.spawn_surface_node(SurfaceNode::new(earth, u64::from(cell)));

    let storage_a = world.spawn_storage(
        Storage::new(1, ResourceAmount::from_raw(500), ResourceAmount::from_raw(1000)).expect("valid storage"),
    );
    let storage_b = world.spawn_storage(
        Storage::new(2, ResourceAmount::from_raw(100), ResourceAmount::from_raw(2000)).expect("valid storage"),
    );
    let converter = world.spawn_converter(Converter::new(10, 10_000, true));
    let edge = world.spawn_flow_edge(
        FlowEdge {
            source: storage_a,
            destination: storage_b,
            max_throughput: ResourceAmount::from_raw(100),
            latency: 2,
            efficiency_millionths: 1_000_000,
        },
        FlowQueue {
            packets: vec![
                TransitPacket {
                    element_id: 1,
                    amount: ResourceAmount::from_raw(50),
                    arrival_tick: 5,
                    destination: storage_b,
                },
                TransitPacket {
                    element_id: 1,
                    amount: ResourceAmount::from_raw(25),
                    arrival_tick: 6,
                    destination: storage_b,
                },
            ],
        },
    );

    let resources = resource_dtos(&world);
    assert_eq!(resources.len(), 2);
    assert_eq!(resources[0].name, "Iron Ore");
    assert_eq!(resources[1].name, "Steel Plate");

    let storages = storage_dtos(&world);
    assert_eq!(storages.len(), 2);
    assert_eq!(storages[0].entity_id, storage_a.index());
    assert_eq!(storages[0].amount, 500);
    assert_eq!(storages[0].capacity, 1000);

    let converters = converter_dtos(&world);
    assert_eq!(converters.len(), 1);
    assert_eq!(converters[0].entity_id, converter.index());
    assert_eq!(converters[0].recipe_id, 10);

    assert!(in_transit_sums_fit(&world));
    let edges = flow_edge_dtos(&world);
    assert_eq!(edges.len(), 1);
    assert_eq!(edges[0].edge_id, edge.index());
    assert_eq!(edges[0].source_id, storage_a.index());
    assert_eq!(edges[0].destination_id, storage_b.index());
    assert_eq!(edges[0].in_transit, 75);

    let astro_nodes = astro_node_dtos(&world);
    assert_eq!(astro_nodes.len(), 1);
    assert_eq!(astro_nodes[0].body_id, 1);
    assert_eq!(astro_nodes[0].radius_km, 6371);
    assert_eq!(astro_nodes[0].h3_resolution, 3);

    let surface_nodes = try_surface_node_dtos(&world).expect("valid cells");
    assert_eq!(surface_nodes.len(), 1);
    assert_eq!(surface_nodes[0].entity_id, facility.index());
    assert_eq!(surface_nodes[0].parent_body_id, 1);
    assert_eq!(surface_nodes[0].h3_cell_index, cell.to_string());
}

#[test]
fn test_records_sorted_by_entity() {
    let mut world = initialize_simulation_world();
    let a = world.spawn_empty();
    let b = world.spawn_empty();
    world.insert_storage(b, Storage::new(2, ResourceAmount::zero(), ResourceAmount::from_raw(5)).unwrap());
    world.insert_storage(a, Storage::new(1, ResourceAmount::zero(), ResourceAmount::from_raw(5)).unwrap());
    let storages = storage_dtos(&world);
    assert_eq!(storages.len(), 2);
    assert_eq!(storages[0].entity_id, a.index());
    assert_eq!(storages[0].resource_id, 1);
    assert_eq!(storages[1].entity_id, b.index());
    assert_eq!(storages[1].resource_id, 2);
}

#[test]
fn test_surface_parent_without_body_reports_entity_index() {
    let mut world = initialize_simulation_world();
    let _spacer = world.spawn_empty();
    let not_a_body = world.spawn_empty();
    let cell = LatLng::new(10.0, 10.0).expect("coord").to_cell(Resolution::Three);
    world.spawn_surface_node(SurfaceNode::new(not_a_body, u64::from(cell)));
    let surface_nodes = try_surface_node_dtos(&world).expect("valid cells");
    assert_eq!(surface_nodes[0].parent_body_id, not_a_body.index());
}

#[test]
fn test_in_transit_overflow_is_detected() {
    let mut world = initialize_simulation_world();
    let s = world.spawn_storage(Storage::new(1, ResourceAmount::zero(), ResourceAmount::from_raw(5)).unwrap());
    let packet = TransitPacket {
        element_id: 1,
        amount: ResourceAmount::from_raw(i64::MAX),
        arrival_tick: 9,
        destination: s,
    };
    world.spawn_flow_edge(
        FlowEdge {
            source: s,
            destination: s,
            max_throughput: ResourceAmount::from_raw(1),
            latency: 1,
            efficiency_millionths: 1_000_000,
        },
        FlowQueue { packets: vec![packet, packet] },
    );
    assert!(!in_transit_sums_fit(&world));
}

#[test]
fn test_build_world_from_snapshot() {
    let london = LatLng::new(51.5074, -0.1278).expect("coord").to_cell(Resolution::Three);
    let astros = vec![
        AstroNodeDto { entity_id: 7, body_id: 1, radius_km: 6371, h3_resolution: 3 },
        AstroNodeDto { entity_id: 9, body_id: 2, radius_km: 3389, h3_resolution: 2 },
    ];
    let orbital_ids = vec![2u64, 5u64, 1u64];
    let surfaces = vec![
        SurfaceNodeDto { entity_id: 11, parent_body_id: 1, h3_cell_index: london.to_string() },
        SurfaceNodeDto { entity_id: 12, parent_body_id: 2, h3_cell_index: "zz".to_string() },
        SurfaceNodeDto { entity_id: 13, parent_body_id: 8, h3_cell_index: london.to_string() },
    ];
    let (world, attach) = build_world_from_snapshot(42, &astros, &orbital_ids, &surfaces);

    assert_eq!(world.current_tick(), 42);
    assert_eq!(attach, vec![(2, Entity::from_index(0)), (0, Entity::from_index(1)), (1, Entity::from_index(2))]);
    assert_eq!(world.astro_nodes.len(), 2);
    assert_eq!(world.astro_nodes[1].1, AstroNode::new(2, 3389, 2));
    assert_eq!(world.surface_nodes.len(), 2);
    assert_eq!(world.surface_nodes[0], (Entity::from_index(3), SurfaceNode::new(Entity::from_index(0), u64::from(london))));
    assert_eq!(world.surface_nodes[1].0, Entity::from_index(4));
    assert_eq!(world.surface_nodes[1].1.parent_body, Entity::placeholder());
    assert_eq!(converter_dtos(&world).len(), 200);
    assert_eq!(storage_dtos(&world).len(), 400);
    assert_eq!(resource_dtos(&world).len(), 40);
}

#[test]
fn test_build_world_without_bodies_spawns_each_orbital() {
    let (world, attach) = build_world_from_snapshot(0, &vec![], &vec![4u64, 8u64], &vec![]);
    assert_eq!(attach, vec![(0, Entity::from_index(0)), (1, Entity::from_index(1))]);
    assert!(world.astro_nodes.is_empty());
    assert_eq!(world.next_entity, 2 + 850);
}
