use synthetic_core::network::{
    initialize_simulation_world, tick_simulation_world, Converter, ConverterBindings, Entity, FlowEdge,
    FlowQueue, Recipe, RecipeIngredient, RecipeRegistry, Relocating, ResourceAmount, Storage, World,
};

fn storage(element_id: u32, current: i64, capacity: i64) -> Storage {
    Storage::new(element_id, ResourceAmount::from_raw(current), ResourceAmount::from_raw(capacity)).unwrap()
}

fn edge(source: Entity, destination: Entity, max_throughput: i64, latency: u64) -> FlowEdge {
    FlowEdge {
        source,
        destination,
        max_throughput: ResourceAmount::from_raw(max_throughput),
        latency,
        efficiency_millionths: 1_000_000,
    }
}

fn one_to_one_recipe(id: u32, from: u32, to: u32, amount: ResourceAmount) -> Recipe {
    Recipe {
        id,
        inputs: vec![RecipeIngredient { element_id: from, amount }],
        outputs: vec![RecipeIngredient { element_id: to, amount }],
    }
}

fn amount_of(world: &World, e: Entity) -> i64 {
    world.get_storage(e).unwrap().current_amount.to_raw()
}

fn total_world_inventory(world: &World) -> i64 {
    let mut total: i64 = 0;
    for (_, s) in &world.storages {
        total += s.current_amount.to_raw();
    }
    for row in &world.edges {
        for packet in &row.queue.packets {
            total += packet.amount.to_raw();
        }
    }
    total
}

#[test]
fn test_simulation_world_initialization() {
    let world = initialize_simulation_world();
    assert_eq!(world.current_tick(), 0);
    assert_eq!(world.current_tick.0, 0);
}

#[test]
fn test_flow_transit_latency_and_conservation() {
    let mut world = initialize_simulation_world();
    let stock_a = world.spawn_storage(storage(1, 1_000, 1_000));
    let stock_b = world.spawn_storage(storage(1, 0, 1_000));
    let e = world.spawn_flow_edge(edge(stock_a, stock_b, 200, 2), FlowQueue::new());

    tick_simulation_world(&mut world).expect("tick ok");
    assert_eq!(world.current_tick(), 1);
    assert_eq!(amount_of(&world, stock_a), 800);
    assert_eq!(amount_of(&world, stock_b), 0);
    let queue = world.get_flow_queue(e).unwrap();
    assert_eq!(queue.packets.len(), 1);
    assert_eq!(queue.packets[0].amount.to_raw(), 200);
    assert_eq!(queue.packets[0].arrival_tick, 3);

    tick_simulation_world(&mut world).expect("tick ok");
    assert_eq!(world.current_tick(), 2);
    assert_eq!(amount_of(&world, stock_b), 0);

    tick_simulation_world(&mut world).expect("tick ok");
    assert_eq!(world.current_tick(), 3);
    assert_eq!(amount_of(&world, stock_b), 200);
}

#[test]
fn test_contention_resolution_pro_rata() {
    let mut world = initialize_simulation_world();
    let source = world.spawn_storage(storage(1, 100, 100));
    let dest1 = world.spawn_storage(storage(1, 0, 100));
    let dest2 = world.spawn_storage(storage(1, 0, 100));
    world.spawn_flow_edge(edge(source, dest1, 100, 1), FlowQueue::new());
    world.spawn_flow_edge(edge(source, dest2, 100, 1), FlowQueue::new());

    tick_simulation_world(&mut world).expect("tick ok");
    assert_eq!(amount_of(&world, source), 0);
}

#[test]
fn test_converter_transformation() {
    let mut world = initialize_simulation_world();
    let mut recipes = RecipeRegistry::new();
    recipes.register(one_to_one_recipe(1, 1, 2, ResourceAmount::from_raw(10)));
    world.insert_recipe_registry(recipes);

    let input_stock = world.spawn_storage(storage(1, 50, 100));
    let output_stock = world.spawn_storage(storage(2, 0, 100));
    world.spawn_bound_converter(
        Converter::new(1, 10_000, true),
        ConverterBindings::new(vec![input_stock], vec![output_stock]),
    );

    tick_simulation_world(&mut world).expect("tick ok");
    assert_eq!(amount_of(&world, input_stock), 40);
    assert_eq!(amount_of(&world, output_stock), 10);
}

#[test]
fn test_relocating_lifecycle() {
    let mut world = initialize_simulation_world();
    let target = world.spawn_empty();
    let mover = world.spawn_relocating(Relocating { destination_id: target, arrival_tick: 1 });

    assert!(world.get_relocating(mover).is_some());
    tick_simulation_world(&mut world).expect("tick ok");
    assert!(world.get_relocating(mover).is_none());
}

#[test]
fn test_absolute_zero_sum_conservation_across_100_ticks() {
    let mut world = initialize_simulation_world();
    let mut registry = RecipeRegistry::new();
    registry.register(one_to_one_recipe(101, 1, 2, ResourceAmount::from_units(10).unwrap()));
    world.insert_recipe_registry(registry);

    let units = |n: i64| ResourceAmount::from_units(n).unwrap();
    let s1 = world.spawn_storage(Storage::new(1, units(1_000), units(1_000)).unwrap());
    let s2 = world.spawn_storage(Storage::new(1, ResourceAmount::zero(), units(500)).unwrap());
    let s3 = world.spawn_storage(Storage::new(2, ResourceAmount::zero(), units(500)).unwrap());
    let s4 = world.spawn_storage(Storage::new(2, ResourceAmount::zero(), units(1_000)).unwrap());

    world.spawn_flow_edge(
        FlowEdge { source: s1, destination: s2, max_throughput: units(50), latency: 3, efficiency_millionths: 1_000_000 },
        FlowQueue::new(),
    );
    world.spawn_bound_converter(Converter::new(101, 10_000, true), ConverterBindings::new(vec![s2], vec![s3]));
    world.spawn_flow_edge(
        FlowEdge { source: s3, destination: s4, max_throughput: units(30), latency: 5, efficiency_millionths: 1_000_000 },
        FlowQueue::new(),
    );

    let initial_mass = total_world_inventory(&world);
    assert_eq!(initial_mass, 1_000_000_000);

    for tick in 1..=100 {
        tick_simulation_world(&mut world).expect("tick should succeed");
        let current_mass = total_world_inventory(&world);
        assert_eq!(
            current_mass, initial_mass,
            "Mass violation at tick {tick}: expected {initial_mass}, found {current_mass}"
        );
    }
}

#[test]
fn test_exact_latency_queue_delay_tau_ticks() {
    let mut world = initialize_simulation_world();
    let s1 = world.spawn_storage(storage(1, 100, 100));
    let s2 = world.spawn_storage(storage(1, 0, 100));
    let e = world.spawn_flow_edge(edge(s1, s2, 100, 4), FlowQueue::new());

    tick_simulation_world(&mut world).expect("tick 1");
    assert_eq!(world.current_tick(), 1);
    assert_eq!(amount_of(&world, s1), 0);
    assert_eq!(amount_of(&world, s2), 0);
    assert_eq!(world.get_flow_queue(e).unwrap().packets[0].arrival_tick, 5);

    for expected_tick in 2..=4 {
        tick_simulation_world(&mut world).expect("tick in flight");
        assert_eq!(world.current_tick(), expected_tick);
        assert_eq!(amount_of(&world, s2), 0);
    }

    tick_simulation_world(&mut world).expect("tick 5 arrival");
    assert_eq!(world.current_tick(), 5);
    assert_eq!(amount_of(&world, s2), 100);
}

#[test]
fn test_contention_resolution_exact_pro_rata_with_remainder() {
    let mut world = initialize_simulation_world();
    let src = world.spawn_storage(storage(1, 100, 100));
    let d1 = world.spawn_storage(storage(1, 0, 100));
    let d2 = world.spawn_storage(storage(1, 0, 100));
    let d3 = world.spawn_storage(storage(1, 0, 100));
    world.spawn_flow_edge(edge(src, d1, 80, 1), FlowQueue::new());
    world.spawn_flow_edge(edge(src, d2, 60, 1), FlowQueue::new());
    world.spawn_flow_edge(edge(src, d3, 60, 1), FlowQueue::new());

    tick_simulation_world(&mut world).expect("tick 1");
    assert_eq!(amount_of(&world, src), 0);

    tick_simulation_world(&mut world).expect("tick 2");
    assert_eq!(amount_of(&world, d1), 40);
    assert_eq!(amount_of(&world, d2), 30);
    assert_eq!(amount_of(&world, d3), 30);
}

#[test]
fn test_ssot_001_phase_order_transit_arrival_precedes_converter() {
    let mut world = initialize_simulation_world();
    let mut registry = RecipeRegistry::new();
    registry.register(one_to_one_recipe(1, 1, 2, ResourceAmount::from_raw(50)));
    world.insert_recipe_registry(registry);

    let src = world.spawn_storage(storage(1, 50, 100));
    let conv_in = world.spawn_storage(storage(1, 0, 100));
    let conv_out = world.spawn_storage(storage(2, 0, 100));
    world.spawn_flow_edge(edge(src, conv_in, 50, 1), FlowQueue::new());
    world.spawn_bound_converter(
        Converter::new(1, 10_000, true),
        ConverterBindings::new(vec![conv_in], vec![conv_out]),
    );

    tick_simulation_world(&mut world).expect("tick 1");
    assert_eq!(amount_of(&world, conv_in), 0);
    assert_eq!(amount_of(&world, conv_out), 0);

    tick_simulation_world(&mut world).expect("tick 2");
    assert_eq!(amount_of(&world, conv_in), 0, "Input was consumed by converter in same tick after arriving");
    assert_eq!(amount_of(&world, conv_out), 50, "Output was produced in Phase 4 of tick 2");
}

#[test]
fn test_backpressure_throttling() {
    let mut world = initialize_simulation_world();
    let src = world.spawn_storage(storage(1, 500, 500));
    let dest = world.spawn_storage(storage(1, 40, 50));
    world.spawn_flow_edge(edge(src, dest, 100, 1), FlowQueue::new());

    tick_simulation_world(&mut world).expect("tick 1");
    assert_eq!(amount_of(&world, src), 490);

    tick_simulation_world(&mut world).expect("tick 2");
    assert_eq!(amount_of(&world, dest), 50);

    tick_simulation_world(&mut world).expect("tick 3");
    assert_eq!(amount_of(&world, src), 490);
    assert_eq!(amount_of(&world, dest), 50);
}

#[test]
fn test_converter_idle_when_not_operational() {
    let mut world = initialize_simulation_world();
    let mut registry = RecipeRegistry::new();
    registry.register(one_to_one_recipe(7, 1, 2, ResourceAmount::from_raw(10)));
    world.insert_recipe_registry(registry);
    let input = world.spawn_storage(storage(1, 50, 100));
    let output = world.spawn_storage(storage(2, 0, 100));
    world.spawn_bound_converter(Converter::new(7, 10_000, false), ConverterBindings::new(vec![input], vec![output]));
    let broken_in = world.spawn_storage(storage(1, 50, 100));
    let broken_out = world.spawn_storage(storage(2, 0, 100));
    world.spawn_bound_converter(Converter::new(7, 0, true), ConverterBindings::new(vec![broken_in], vec![broken_out]));

    tick_simulation_world(&mut world).expect("tick ok");
    assert_eq!(amount_of(&world, input), 50);
    assert_eq!(amount_of(&world, output), 0);
    assert_eq!(amount_of(&world, broken_in), 50);
    assert_eq!(amount_of(&world, broken_out), 0);
}

#[test]
fn test_converter_output_scaled_by_health() {
    let mut world = initialize_simulation_world();
    let mut registry = RecipeRegistry::new();
    registry.register(one_to_one_recipe(3, 1, 2, ResourceAmount::from_raw(100)));
    world.insert_recipe_registry(registry);
    let input = world.spawn_storage(storage(1, 100, 100));
    let output = world.spawn_storage(storage(2, 0, 100));
    world.spawn_bound_converter(Converter::new(3, 5_000, true), ConverterBindings::new(vec![input], vec![output]));

    tick_simulation_world(&mut world).expect("tick ok");
    assert_eq!(amount_of(&world, input), 0);
    assert_eq!(amount_of(&world, output), 50);
}

#[test]
fn test_converter_waits_for_inputs_and_room() {
    let mut world = initialize_simulation_world();
    let mut registry = RecipeRegistry::new();
    registry.register(one_to_one_recipe(4, 1, 2, ResourceAmount::from_raw(10)));
    world.insert_recipe_registry(registry);
    let short_in = world.spawn_storage(storage(1, 5, 100));
    let short_out = world.spawn_storage(storage(2, 0, 100));
    world.spawn_bound_converter(Converter::new(4, 10_000, true), ConverterBindings::new(vec![short_in], vec![short_out]));
    let full_in = world.spawn_storage(storage(1, 50, 100));
    let full_out = world.spawn_storage(storage(2, 95, 100));
    world.spawn_bound_converter(Converter::new(4, 10_000, true), ConverterBindings::new(vec![full_in], vec![full_out]));

    tick_simulation_world(&mut world).expect("tick ok");
    assert_eq!(amount_of(&world, short_in), 5);
    assert_eq!(amount_of(&world, short_out), 0);
    assert_eq!(amount_of(&world, full_in), 50);
    assert_eq!(amount_of(&world, full_out), 95);
}

#[test]
fn test_partial_delivery_reschedules_remainder() {
    let mut world = initialize_simulation_world();
    let src = world.spawn_storage(storage(1, 100, 100));
    let dest = world.spawn_storage(storage(1, 0, 100));
    let e = world.spawn_flow_edge(edge(src, dest, 100, 1), FlowQueue::new());

    tick_simulation_world(&mut world).expect("tick 1");
    assert_eq!(amount_of(&world, src), 0);
    world.insert_storage(dest, storage(1, 70, 100));

    tick_simulation_world(&mut world).expect("tick 2");
    assert_eq!(amount_of(&world, dest), 100);
    let queue = world.get_flow_queue(e).unwrap();
    assert_eq!(queue.packets.len(), 1);
    assert_eq!(queue.packets[0].amount.to_raw(), 70);
    assert_eq!(queue.packets[0].arrival_tick, 3);
}

#[test]
fn test_edge_efficiency_loses_mass_in_transit() {
    let mut world = initialize_simulation_world();
    let src = world.spawn_storage(storage(1, 1_000, 1_000));
    let dest = world.spawn_storage(storage(1, 0, 1_000));
    let lossy = FlowEdge { efficiency_millionths: 750_000, ..edge(src, dest, 400, 1) };
    let e = world.spawn_flow_edge(lossy, FlowQueue::new());

    tick_simulation_world(&mut world).expect("tick 1");
    assert_eq!(amount_of(&world, src), 600);
    assert_eq!(world.get_flow_queue(e).unwrap().packets[0].amount.to_raw(), 300);

    tick_simulation_world(&mut world).expect("tick 2");
    assert_eq!(amount_of(&world, dest), 300);
}

#[test]
fn test_tick_reports_first_logged_error() {
    let mut world = initialize_simulation_world();
    let mut registry = RecipeRegistry::new();
    registry.register(Recipe {
        id: 9,
        inputs: vec![RecipeIngredient { element_id: 1, amount: ResourceAmount::from_raw(-10) }],
        outputs: vec![RecipeIngredient { element_id: 2, amount: ResourceAmount::from_raw(10) }],
    });
    world.insert_recipe_registry(registry);
    let input = world.spawn_storage(storage(1, 50, 100));
    let output = world.spawn_storage(storage(2, 0, 100));
    world.spawn_bound_converter(Converter::new(9, 10_000, true), ConverterBindings::new(vec![input], vec![output]));

    let r = tick_simulation_world(&mut world);
    assert_eq!(r, Err(synthetic_core::DomainError::NegativeResourceAmount(-10)));
    assert_eq!(amount_of(&world, input), 50);
    assert_eq!(amount_of(&world, output), 10);
    assert!(world.error_log.errors.is_empty());
    assert_eq!(world.current_tick(), 1);
}

#[test]
fn test_tick_fits_rejects_tick_counter_overflow() {
    let mut world = initialize_simulation_world();
    world.current_tick = synthetic_core::CurrentTick(u64::MAX);
    assert!(!synthetic_core::tick_fits(&world));
    assert_eq!(synthetic_core::try_tick_simulation_world(&mut world), None);
    assert_eq!(world.current_tick(), u64::MAX);
}

#[test]
fn test_tick_fits_rejects_in_flight_total_overflow() {
    let mut world = initialize_simulation_world();
    let s = world.spawn_storage(storage(1, 0, 100));
    let big = synthetic_core::TransitPacket {
        element_id: 1,
        amount: ResourceAmount::from_raw(i64::MAX),
        arrival_tick: 50,
        destination: s,
    };
    let e = world.spawn_flow_edge(edge(s, s, 10, 1), FlowQueue { packets: vec![big, big] });
    assert!(!synthetic_core::tick_fits(&world));
    assert_eq!(synthetic_core::try_tick_simulation_world(&mut world), None);
    assert_eq!(world.current_tick(), 0);
    assert_eq!(world.get_flow_queue(e).unwrap().packets.len(), 2);
}

#[test]
fn test_tick_fits_rejects_arrival_tick_overflow() {
    let mut world = initialize_simulation_world();
    let src = world.spawn_storage(storage(1, 100, 100));
    let dest = world.spawn_storage(storage(1, 0, 100));
    world.spawn_flow_edge(edge(src, dest, 10, u64::MAX), FlowQueue::new());
    assert!(!synthetic_core::tick_fits(&world));
    assert_eq!(synthetic_core::try_tick_simulation_world(&mut world), None);
    assert_eq!(amount_of(&world, src), 100);
}

#[test]
fn test_try_tick_runs_ordinary_ticks() {
    let mut world = initialize_simulation_world();
    let src = world.spawn_storage(storage(1, 100, 100));
    let dest = world.spawn_storage(storage(1, 0, 100));
    world.spawn_flow_edge(edge(src, dest, 30, 1), FlowQueue::new());
    assert!(synthetic_core::tick_fits(&world));
    assert_eq!(synthetic_core::try_tick_simulation_world(&mut world), Some(Ok(())));
    assert_eq!(amount_of(&world, src), 70);
    assert_eq!(world.current_tick(), 1);
}

#[test]
fn test_error_log_take_first_clears_log() {
    let mut log = synthetic_core::network::TickErrorLog::new();
    assert_eq!(log.take_first(), None);
    log.push(synthetic_core::DomainError::NegativeResourceAmount(-1));
    log.push(synthetic_core::DomainError::NegativeResourceAmount(-2));
    assert_eq!(log.take_first(), Some(synthetic_core::DomainError::NegativeResourceAmount(-1)));
    assert!(log.errors.is_empty());
    assert_eq!(log.take_first(), None);
}

#[test]
fn test_tick_error_does_not_repeat() {
    let mut world = initialize_simulation_world();
    let mut registry = RecipeRegistry::new();
    registry.register(Recipe {
        id: 9,
        inputs: vec![
            RecipeIngredient { element_id: 1, amount: ResourceAmount::from_raw(-10) },
            RecipeIngredient { element_id: 3, amount: ResourceAmount::from_raw(-20) },
        ],
        outputs: vec![RecipeIngredient { element_id: 2, amount: ResourceAmount::from_raw(10) }],
    });
    world.insert_recipe_registry(registry);
    let input = world.spawn_storage(storage(1, 50, 100));
    let other = world.spawn_storage(storage(3, 50, 100));
    let output = world.spawn_storage(storage(2, 0, 100));
    world.spawn_bound_converter(
        Converter::new(9, 10_000, true),
        ConverterBindings::new(vec![input, other], vec![output]),
    );
    let r = tick_simulation_world(&mut world);
    assert_eq!(r, Err(synthetic_core::DomainError::NegativeResourceAmount(-10)));
    assert!(world.error_log.errors.is_empty());
    world.insert_storage(output, storage(2, 100, 100));
    assert!(tick_simulation_world(&mut world).is_ok());
}

#[test]
fn test_two_input_recipe_conserves_mass_and_runs_clean() {
    let mut world = initialize_simulation_world();
    let mut registry = RecipeRegistry::new();
    registry.register(Recipe {
        id: 11,
        inputs: vec![
            RecipeIngredient { element_id: 1, amount: ResourceAmount::from_raw(5) },
            RecipeIngredient { element_id: 2, amount: ResourceAmount::from_raw(5) },
        ],
        outputs: vec![RecipeIngredient { element_id: 11, amount: ResourceAmount::from_raw(10) }],
    });
    world.insert_recipe_registry(registry);
    let a = world.spawn_storage(storage(1, 100, 100));
    let b = world.spawn_storage(storage(2, 100, 100));
    let in_a = world.spawn_storage(storage(1, 0, 50));
    let in_b = world.spawn_storage(storage(2, 0, 50));
    let out = world.spawn_storage(storage(11, 0, 1_000));
    world.spawn_flow_edge(edge(a, in_a, 7, 2), FlowQueue::new());
    world.spawn_flow_edge(edge(b, in_b, 5, 1), FlowQueue::new());
    world.spawn_bound_converter(Converter::new(11, 10_000, true), ConverterBindings::new(vec![in_a, in_b], vec![out]));
    let initial = total_world_inventory(&world);
    for _ in 0..60 {
        assert_eq!(tick_simulation_world(&mut world), Ok(()));
        assert_eq!(total_world_inventory(&world), initial);
    }
    assert!(amount_of(&world, out) > 0);
}

#[test]
fn test_zero_amount_packet_is_dropped_on_arrival() {
    let mut world = initialize_simulation_world();
    let src = world.spawn_storage(storage(1, 0, 100));
    let dest = world.spawn_storage(storage(1, 10, 100));
    let empty = synthetic_core::TransitPacket {
        element_id: 1,
        amount: ResourceAmount::from_raw(0),
        arrival_tick: 1,
        destination: dest,
    };
    let e = world.spawn_flow_edge(edge(src, dest, 5, 1), FlowQueue { packets: vec![empty] });
    let initial = total_world_inventory(&world);
    assert_eq!(tick_simulation_world(&mut world), Ok(()));
    assert!(world.get_flow_queue(e).unwrap().packets.is_empty());
    assert_eq!(amount_of(&world, dest), 10);
    assert_eq!(total_world_inventory(&world), initial);
}
