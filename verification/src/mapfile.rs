use vstd::prelude::*;
use vstd::string::StringExecFns;

verus! {

/// The Tiled map reader's error type, carried through unopened.
#[verifier::external_type_specification]
#[verifier::external_body]
pub struct ExTiledError(tiled::TiledError);

/// The name of the objects of a map that mark where players spawn.
pub const PLAYER_SPAWN_NAME: &'static str = "spawn";

/// Why a map could not be loaded.
#[derive(Debug)]
pub enum LoadError {
    Tiled(tiled::TiledError),
    UnknownEntityType(String),
}

/// What the loader reads of an object placed in a Tiled map: its name and
/// its type, in the order in which the map lists its objects.
#[derive(Debug, Clone)]
pub struct MapObject {
    pub name: String,
    pub obj_type: String,
}

/// The kinds of entity that a map object can stand for.
#[derive(Debug, Clone, Copy, PartialEq, Eq, Structural)]
pub enum EntityKind {
    Turret,
    Wall,
    FoodSpawn,
}

/// What a map holds, by object index: the objects that are spawn points and
/// the objects that become entities, each in map order.
#[derive(Debug, Clone)]
pub struct MapLayout {
    pub spawn_points: Vec<usize>,
    pub entities: Vec<(usize, EntityKind)>,
}

/// The name an object goes by: its type, or its name when it has no type.
pub open spec fn object_name_spec(o: MapObject) -> Seq<char> {
    if o.obj_type@.len() == 0 {
        o.name@
    } else {
        o.obj_type@
    }
}

/// The object marks a spawn point.
pub open spec fn is_spawn(o: MapObject) -> bool {
    object_name_spec(o) == PLAYER_SPAWN_NAME@
}

/// The kind of entity that an object of the given name stands for.
pub open spec fn entity_kind_spec(name: Seq<char>) -> Option<EntityKind> {
    if name == "turret"@ {
        Some(EntityKind::Turret)
    } else if name == "wall"@ {
        Some(EntityKind::Wall)
    } else if name == "food_spawn"@ {
        Some(EntityKind::FoodSpawn)
    } else {
        None
    }
}

/// The object is a spawn point or stands for a known kind of entity.
pub open spec fn is_known(o: MapObject) -> bool {
    is_spawn(o) || entity_kind_spec(object_name_spec(o)) is Some
}

/// The indices of the spawn points among `objs`, in order.
pub open spec fn spawn_indices(objs: Seq<MapObject>) -> Seq<usize>
    decreases objs.len(),
{
    if objs.len() == 0 {
        Seq::empty()
    } else {
        let prev = spawn_indices(objs.drop_last());
        if is_spawn(objs.last()) {
            prev.push((objs.len() - 1) as usize)
        } else {
            prev
        }
    }
}

/// The objects among `objs` that become entities, by index and kind, in
/// order.
pub open spec fn entity_entries(objs: Seq<MapObject>) -> Seq<(usize, EntityKind)>
    decreases objs.len(),
{
    if objs.len() == 0 {
        Seq::empty()
    } else {
        let prev = entity_entries(objs.drop_last());
        let o = objs.last();
        if !is_spawn(o) && entity_kind_spec(object_name_spec(o)) is Some {
            prev.push(((objs.len() - 1) as usize, entity_kind_spec(object_name_spec(o))->0))
        } else {
            prev
        }
    }
}

/// `i` is the first object of `objs` that is neither a spawn point nor a
/// known kind of entity.
pub open spec fn is_first_unknown(objs: Seq<MapObject>, i: int) -> bool {
    &&& 0 <= i < objs.len()
    &&& !is_known(objs[i])
    &&& forall|j: int| 0 <= j < i ==> is_known(#[trigger] objs[j])
}

/// The spawn point indices of `objs` are exactly the indices of its spawn
/// point objects.
pub proof fn lemma_spawn_indices_contains(objs: Seq<MapObject>, j: usize)
    requires
        objs.len() <= usize::MAX,
    ensures
        spawn_indices(objs).contains(j) <==> j < objs.len() && is_spawn(objs[j as int]),
    decreases objs.len(),
{
    if objs.len() > 0 {
        let prev = objs.drop_last();
        let p = spawn_indices(prev);
        let last = (objs.len() - 1) as usize;
        lemma_spawn_indices_contains(prev, j);
        if j < last {
            assert(prev[j as int] == objs[j as int]);
        }
        if is_spawn(objs.last()) {
            let s = p.push(last);
            if s.contains(j) {
                let k = choose|k: int| 0 <= k < s.len() && s[k] == j;
                if k < p.len() {
                    assert(p[k] == j);
                }
            }
            if p.contains(j) {
                let k = choose|k: int| 0 <= k < p.len() && p[k] == j;
                assert(s[k] == j);
            }
            if j == last {
                assert(s[p.len() as int] == j);
            }
        }
    }
}

/// The entities of `objs` are exactly its objects that are no spawn point
/// and stand for a known kind, each with that kind.
pub proof fn lemma_entity_entries_contains(objs: Seq<MapObject>, j: usize, k: EntityKind)
    requires
        objs.len() <= usize::MAX,
    ensures
        entity_entries(objs).contains((j, k)) <==> j < objs.len() && !is_spawn(objs[j as int])
            && entity_kind_spec(object_name_spec(objs[j as int])) == Some(k),
    decreases objs.len(),
{
    if objs.len() > 0 {
        let prev = objs.drop_last();
        let p = entity_entries(prev);
        let last = (objs.len() - 1) as usize;
        let o = objs.last();
        lemma_entity_entries_contains(prev, j, k);
        if j < last {
            assert(prev[j as int] == objs[j as int]);
        }
        if !is_spawn(o) && entity_kind_spec(object_name_spec(o)) is Some {
            let x = (last, entity_kind_spec(object_name_spec(o))->0);
            let s = p.push(x);
            if s.contains((j, k)) {
                let i = choose|i: int| 0 <= i < s.len() && s[i] == (j, k);
                if i < p.len() {
                    assert(p[i] == (j, k));
                }
            }
            if p.contains((j, k)) {
                let i = choose|i: int| 0 <= i < p.len() && p[i] == (j, k);
                assert(s[i] == (j, k));
            }
            if (j, k) == x {
                assert(s[p.len() as int] == (j, k));
            }
        }
    }
}

/// How a map is laid out goes by the name of each object alone: an object
/// is a player spawn point exactly when its name is "spawn"; otherwise an
/// object named "turret", "wall" or "food_spawn" becomes a turret, a wall
/// or a food spawn, and nothing else becomes an entity. So a food spawn is
/// never a player spawn point.
pub proof fn lemma_map_layout_by_name(objects: Seq<MapObject>, layout: MapLayout)
    requires
        objects.len() <= usize::MAX,
        layout.spawn_points@ == spawn_indices(objects),
        layout.entities@ == entity_entries(objects),
    ensures
        forall|j: usize| #[trigger]
            layout.spawn_points@.contains(j) <==> j < objects.len() && object_name_spec(
                objects[j as int],
            ) == "spawn"@,
        forall|j: usize, k: EntityKind| #[trigger]
            layout.entities@.contains((j, k)) <==> j < objects.len() && object_name_spec(
                objects[j as int],
            ) != "spawn"@ && ({
                ||| object_name_spec(objects[j as int]) == "turret"@ && k == EntityKind::Turret
                ||| object_name_spec(objects[j as int]) == "wall"@ && k == EntityKind::Wall
                ||| object_name_spec(objects[j as int]) == "food_spawn"@ && k
                    == EntityKind::FoodSpawn
            }),
        forall|j: usize|
            j < objects.len() && object_name_spec(#[trigger] objects[j as int]) == "food_spawn"@
                ==> layout.entities@.contains((j, EntityKind::FoodSpawn))
                && !layout.spawn_points@.contains(j),
{
    assert forall|j: usize| #[trigger]
        layout.spawn_points@.contains(j) <==> j < objects.len() && object_name_spec(
            objects[j as int],
        ) == "spawn"@ by {
        lemma_spawn_indices_contains(objects, j);
    }
    assert forall|j: usize, k: EntityKind| #[trigger]
        layout.entities@.contains((j, k)) <==> j < objects.len() && object_name_spec(
            objects[j as int],
        ) != "spawn"@ && ({
            ||| object_name_spec(objects[j as int]) == "turret"@ && k == EntityKind::Turret
            ||| object_name_spec(objects[j as int]) == "wall"@ && k == EntityKind::Wall
            ||| object_name_spec(objects[j as int]) == "food_spawn"@ && k == EntityKind::FoodSpawn
        }) by {
        reveal_strlit("turret");
        reveal_strlit("wall");
        reveal_strlit("food_spawn");
        assert("wall"@.len() != "turret"@.len());
        assert("food_spawn"@.len() != "turret"@.len());
        assert("food_spawn"@.len() != "wall"@.len());
        lemma_entity_entries_contains(objects, j, k);
    }
    assert forall|j: usize|
        j < objects.len() && object_name_spec(#[trigger] objects[j as int]) == "food_spawn"@
            implies layout.entities@.contains((j, EntityKind::FoodSpawn))
            && !layout.spawn_points@.contains(j) by {
        reveal_strlit("food_spawn");
        reveal_strlit("spawn");
        assert("food_spawn"@ != "spawn"@) by {
            assert("food_spawn"@.len() != "spawn"@.len());
        }
        lemma_spawn_indices_contains(objects, j);
        lemma_entity_entries_contains(objects, j, EntityKind::FoodSpawn);
    }
}

/// The name that `object` goes by.
pub fn object_name(object: &MapObject) -> (r: &str)
    ensures
        r@ == object_name_spec(*object),
{
    if object.obj_type.as_str().is_empty() {
        object.name.as_str()
    } else {
        object.obj_type.as_str()
    }
}

/// The kind of entity that `object` stands for; an object of any other name
/// is an error that names it.
pub fn object_to_entity(object: &MapObject) -> (r: Result<EntityKind, LoadError>)
    ensures
        match entity_kind_spec(object_name_spec(*object)) {
            Some(k) => r == Ok::<EntityKind, LoadError>(k),
            None => r matches Err(LoadError::UnknownEntityType(n)) && n@ == object_name_spec(
                *object,
            ),
        },
{
    let name = String::from_str(object_name(object));
    if name == String::from_str("turret") {
        Ok(EntityKind::Turret)
    } else if name == String::from_str("wall") {
        Ok(EntityKind::Wall)
    } else if name == String::from_str("food_spawn") {
        Ok(EntityKind::FoodSpawn)
    } else {
        Err(LoadError::UnknownEntityType(name))
    }
}

/// Sorts the objects of a map into spawn points and entities. The first
/// object, in map order, that is neither is an error that names it.
pub fn load_map(objects: &Vec<MapObject>) -> (r: Result<MapLayout, LoadError>)
    ensures
        match r {
            Ok(layout) => {
                &&& forall|i: int| 0 <= i < objects@.len() ==> is_known(#[trigger] objects@[i])
                &&& layout.spawn_points@ == spawn_indices(objects@)
                &&& layout.entities@ == entity_entries(objects@)
                &&& forall|j: usize| #[trigger]
                    layout.spawn_points@.contains(j) <==> j < objects@.len() && object_name_spec(
                        objects@[j as int],
                    ) == "spawn"@
                &&& forall|j: usize|
                    j < objects@.len() && object_name_spec(#[trigger] objects@[j as int])
                        == "food_spawn"@ ==> layout.entities@.contains((j, EntityKind::FoodSpawn))
                        && !layout.spawn_points@.contains(j)
            },
            Err(LoadError::UnknownEntityType(n)) => exists|i: int|
                is_first_unknown(objects@, i) && n@ == object_name_spec(#[trigger] objects@[i]),
            Err(LoadError::Tiled(_)) => false,
        },
{
    let mut spawn_points: Vec<usize> = Vec::new();
    let mut entities: Vec<(usize, EntityKind)> = Vec::new();
    let n = objects.len();
    let mut i: usize = 0;
    while i < n
        invariant
            n == objects@.len(),
            i <= n,
            forall|j: int| 0 <= j < i ==> is_known(#[trigger] objects@[j]),
            spawn_points@ == spawn_indices(objects@.take(i as int)),
            entities@ == entity_entries(objects@.take(i as int)),
        decreases n - i,
    {
        let object = &objects[i];
        proof {
            assert(objects@.take(i + 1).drop_last() =~= objects@.take(i as int));
            assert(objects@.take(i + 1).last() == objects@[i as int]);
        }
        let spawn = String::from_str(object_name(object)) == String::from_str(PLAYER_SPAWN_NAME);
        if spawn {
            spawn_points.push(i);
        } else {
            match object_to_entity(object) {
                Ok(kind) => {
                    entities.push((i, kind));
                },
                Err(e) => {
                    return Err(e);
                },
            }
        }
        i = i + 1;
    }
    proof {
        assert(objects@.take(n as int) =~= objects@);
    }
    let layout = MapLayout { spawn_points, entities };
    proof {
        lemma_map_layout_by_name(objects@, layout);
    }
    Ok(layout)
}

} // verus!
