use h3o::{LatLng, Resolution};
use synthetic_core::network::{Converter, Entity, ResourceAmount, Storage, World};
use synthetic_core::spatial::{cell_to_string, is_valid_cell, parse_cell, AstroNode, SurfaceNode};

fn cell_at(lat: f64, lng: f64, res: Resolution) -> u64 {
    u64::from(LatLng::new(lat, lng).expect("valid coordinates").to_cell(res))
}

fn surface_rows(world: &World) -> Vec<(Entity, SurfaceNode)> {
    world.surface_nodes.clone()
}

#[test]
fn test_astro_node_initialization() {
    let earth = AstroNode::new(1, 6371, 3);
    assert_eq!(earth.body_id, 1);
    assert_eq!(earth.radius_km, 6371);
    assert_eq!(earth.h3_resolution, 3);
}

#[test]
fn test_surface_node_attachment_and_query() {
    let mut world = World::new();
    let earth_entity = world.spawn_astro_node(AstroNode::new(1, 6371, 3));
    let cell = cell_at(0.0, 0.0, Resolution::Three);
    let facility_entity = world.spawn_surface_node(SurfaceNode::new(earth_entity, cell));

    let results = surface_rows(&world);
    assert_eq!(results.len(), 1);
    assert_eq!(results[0].0, facility_entity);
    assert_eq!(results[0].1.parent_body, earth_entity);
    assert_eq!(results[0].1.cell, cell);
}

#[test]
fn test_surface_node_composition_with_storage_and_converter() {
    let mut world = World::new();
    let mars_entity = world.spawn_astro_node(AstroNode::new(3, 3389, 2));
    let cell = cell_at(15.0, -30.0, Resolution::Two);
    let storage = Storage::new(101, ResourceAmount::from_raw(500), ResourceAmount::from_raw(1000))
        .expect("valid storage");
    let converter = Converter::new(42, 100, true);

    let mine_entity = world.spawn_surface_node(SurfaceNode::new(mars_entity, cell));
    world.insert_storage(mine_entity, storage);
    world.insert_converter(mine_entity, converter);

    let mut matched = 0;
    for (e, sn) in surface_rows(&world) {
        if let (Some(st), Some(cv)) = (world.get_storage(e), world.get_converter(e)) {
            assert_eq!(e, mine_entity);
            assert_eq!(sn.parent_body, mars_entity);
            assert_eq!(sn.cell, cell);
            assert_eq!(st.element_id, 101);
            assert_eq!(cv.recipe_id, 42);
            matched += 1;
        }
    }
    assert_eq!(matched, 1);
}

#[test]
fn test_multiple_facilities_on_distinct_cells() {
    let mut world = World::new();
    let earth = world.spawn_astro_node(AstroNode::new(1, 6371, 3));
    let cell_a = cell_at(10.0, 10.0, Resolution::Three);
    let cell_b = cell_at(50.0, 50.0, Resolution::Three);
    assert_ne!(cell_a, cell_b);

    let mine_a = world.spawn_surface_node(SurfaceNode::new(earth, cell_a));
    let mine_b = world.spawn_surface_node(SurfaceNode::new(earth, cell_b));

    let mut cells_found = Vec::new();
    for (e, sn) in surface_rows(&world) {
        assert_eq!(sn.parent_body, earth);
        cells_found.push((e, sn.cell));
    }
    assert_eq!(cells_found.len(), 2);
    assert!(cells_found.contains(&(mine_a, cell_a)));
    assert!(cells_found.contains(&(mine_b, cell_b)));
}

#[test]
fn test_hermetic_entity_attachment_to_h3_cells() {
    let mut world = World::new();
    let earth = world.spawn_astro_node(AstroNode::new(1, 6371, 3));
    let luna = world.spawn_astro_node(AstroNode::new(2, 1737, 3));
    let mars = world.spawn_astro_node(AstroNode::new(3, 3389, 2));

    let cell_london = cell_at(51.5074, -0.1278, Resolution::Three);
    let cell_tokyo = cell_at(35.6762, 139.6503, Resolution::Three);
    let cell_shackleton = cell_at(-89.9, 0.0, Resolution::Three);
    let cell_olympus = cell_at(18.65, -133.8, Resolution::Two);

    let facility_london = world.spawn_surface_node(SurfaceNode::new(earth, cell_london));
    let facility_tokyo = world.spawn_surface_node(SurfaceNode::new(earth, cell_tokyo));
    let outpost_luna = world.spawn_surface_node(SurfaceNode::new(luna, cell_shackleton));
    let base_mars = world.spawn_surface_node(SurfaceNode::new(mars, cell_olympus));

    let mut nodes = surface_rows(&world);
    assert_eq!(nodes.len(), 4);
    nodes.sort_by_key(|(e, _)| e.index());
    assert!(nodes.iter().any(|(e, sn)| *e == facility_london && sn.parent_body == earth && sn.cell == cell_london));
    assert!(nodes.iter().any(|(e, sn)| *e == facility_tokyo && sn.parent_body == earth && sn.cell == cell_tokyo));
    assert!(nodes.iter().any(|(e, sn)| *e == outpost_luna && sn.parent_body == luna && sn.cell == cell_shackleton));
    assert!(nodes.iter().any(|(e, sn)| *e == base_mars && sn.parent_body == mars && sn.cell == cell_olympus));
}

#[test]
fn test_spatial_composition_with_storage_and_converter() {
    let mut world = World::new();
    let mars = world.spawn_astro_node(AstroNode::new(3, 3389, 2));
    let cell = cell_at(18.65, -133.8, Resolution::Two);
    let storage = Storage::new(
        10,
        ResourceAmount::from_units(500).unwrap(),
        ResourceAmount::from_units(2000).unwrap(),
    )
    .expect("valid storage");
    let converter = Converter::new(1, 100, true);

    let refinery = world.spawn_surface_node(SurfaceNode::new(mars, cell));
    world.insert_storage(refinery, storage);
    world.insert_converter(refinery, converter);

    let mut count = 0;
    for (e, sn) in surface_rows(&world) {
        let mut st = world.get_storage(e).unwrap();
        let cv = world.get_converter(e).unwrap();
        assert_eq!(e, refinery);
        assert_eq!(sn.parent_body, mars);
        assert_eq!(sn.cell, cell);
        assert_eq!(cv.recipe_id, 1);
        assert!(cv.operational_status);

        st.deposit(ResourceAmount::from_units(100).unwrap()).expect("deposit succeeded");
        assert_eq!(st.current_amount, ResourceAmount::from_units(600).unwrap());
        world.insert_storage(e, st);
        count += 1;
    }
    assert_eq!(count, 1);
    assert_eq!(world.get_storage(refinery).unwrap().current_amount.to_raw(), 600_000_000);
}

#[test]
fn test_query_filtering_by_parent_astronomical_body() {
    let mut world = World::new();
    let earth = world.spawn_astro_node(AstroNode::new(1, 6371, 3));
    let mars = world.spawn_astro_node(AstroNode::new(3, 3389, 2));

    let cell_earth_1 = cell_at(10.0, 10.0, Resolution::Three);
    let cell_earth_2 = cell_at(20.0, 20.0, Resolution::Three);
    let cell_mars_1 = cell_at(0.0, 0.0, Resolution::Two);

    let e1 = world.spawn_surface_node(SurfaceNode::new(earth, cell_earth_1));
    let e2 = world.spawn_surface_node(SurfaceNode::new(earth, cell_earth_2));
    let m1 = world.spawn_surface_node(SurfaceNode::new(mars, cell_mars_1));

    let earth_entities: Vec<Entity> = surface_rows(&world)
        .into_iter()
        .filter(|(_, sn)| sn.parent_body == earth)
        .map(|(e, _)| e)
        .collect();
    assert_eq!(earth_entities.len(), 2);
    assert!(earth_entities.contains(&e1));
    assert!(earth_entities.contains(&e2));
    assert!(!earth_entities.contains(&m1));
}

#[test]
fn test_cell_validity_and_text_roundtrip() {
    let h3_cell = LatLng::new(51.5074, -0.1278).expect("valid coordinates").to_cell(Resolution::Three);
    let bits = u64::from(h3_cell);
    assert!(is_valid_cell(bits));
    assert!(!is_valid_cell(0));
    let text = cell_to_string(bits);
    assert_eq!(text, h3_cell.to_string());
    assert_eq!(text, format!("{:x}", bits));
    assert_eq!(parse_cell(&text), Some(bits));
    assert_eq!(parse_cell(&text.to_uppercase()), Some(bits));
    assert_eq!(parse_cell("not a cell"), None);
    assert_eq!(parse_cell("0"), None);
    assert_eq!(parse_cell(""), None);
}

#[test]
fn test_surface_node_try_new_rejects_invalid_cells() {
    let parent = Entity::from_index(0);
    let good = cell_at(0.0, 0.0, Resolution::Three);
    let node = SurfaceNode::try_new(parent, good).expect("valid cell");
    assert_eq!(node.parent_body, parent);
    assert_eq!(node.cell, good);
    assert!(SurfaceNode::try_new(parent, 0).is_none());
    assert!(SurfaceNode::try_new(parent, u64::MAX).is_none());
}
