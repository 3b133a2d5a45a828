//! Capacity constants and the per-cascade configuration surface.

use vstd::prelude::*;

verus! {

/// Fixed-point resolution of world coordinates: one world unit is this many
/// integer units. Positions, distances and sizes in this crate are in these units.
pub const UNITS_PER_WORLD_UNIT: i64 = 1024;

/// Most triangles the triangle store holds; triangles beyond it are dropped.
pub const MAX_TRI_COUNT: usize = 1 << 23;

/// Tiles per axis of a cascade's window.
pub const TILE_DIM_COUNT: usize = 16;

/// Voxels per tile axis: the resolution of the final field.
pub const VOXELS_PER_TILE_DIM: usize = 8;

/// Subvoxels per voxel axis (1 to 4): the resolution of the seed volume.
pub const SUBVOXELS_PER_VOXEL_DIM: usize = 4;

/// Tiles in a cascade's window.
pub const TILE_COUNT: usize = TILE_DIM_COUNT * TILE_DIM_COUNT * TILE_DIM_COUNT;

/// Triangle ids one tile list holds before overflow tiles are allocated.
pub const MAX_IDS_PER_TILE: usize = 128 * 4;

/// Overflow ("virtual") tiles that one binning pass may allocate.
pub const MAX_TILES: usize = TILE_COUNT * 16;

/// A cascade refreshes on the frames where `frame % frequency == offset`.
#[derive(Clone, Copy, Debug, PartialEq, Eq, Structural)]
pub struct CascadeUpdateSchedule {
    pub frequency: u32,
    pub offset: u32,
}

/// One nested level of the field: a cube of half-extent `far_distance`
/// (fixed-point units) centred on the viewer.
#[derive(Clone, Copy, Debug, PartialEq, Eq, Structural)]
pub struct CascadeSettings {
    pub far_distance: i64,
    pub update_schedule: CascadeUpdateSchedule,
}

/// Side of one tile: the cascade's full extent over the tiles per axis.
pub open spec fn tile_size_of(far_distance: int) -> int {
    far_distance * 2 / (TILE_DIM_COUNT as int)
}

impl CascadeSettings {
    /// Usable settings: a schedule that can be evaluated and tiles of at least
    /// one fixed-point unit.
    pub open spec fn valid(self) -> bool {
        &&& self.update_schedule.frequency > 0
        &&& tile_size_of(self.far_distance as int) >= 1
    }

    pub fn tile_size(&self) -> (r: i64)
        ensures
            r as int == tile_size_of(self.far_distance as int),
    {
        let q = crate::geom::floor_div(self.far_distance, 8);
        proof {
            let f = self.far_distance as int;
            vstd::arithmetic::div_mod::lemma_fundamental_div_mod(f, 8);
            vstd::arithmetic::div_mod::lemma_fundamental_div_mod_converse(
                f * 2,
                16,
                f / 8,
                2 * (f % 8),
            );
        }
        q
    }
}

/// Which scene objects contribute to the field.
#[derive(Clone, Copy, Debug, PartialEq, Eq, Structural)]
pub enum ExtractionFilter {
    Marked,
    Unmarked,
}

/// The anchor the cascades are centred on (fixed-point world position).
#[derive(Clone, Copy, Debug, PartialEq, Eq, Structural)]
pub struct SdfCentre(pub crate::geom::IVec3);

/// The full configuration: the object filter and the cascades, finest first.
#[derive(Clone, Debug)]
pub struct SceneSdfSettings {
    pub filter: ExtractionFilter,
    pub cascades: Vec<CascadeSettings>,
}

pub open spec fn cascade(far_distance: int, frequency: int, offset: int) -> CascadeSettings {
    CascadeSettings {
        far_distance: far_distance as i64,
        update_schedule: CascadeUpdateSchedule { frequency: frequency as u32, offset: offset as u32 },
    }
}

/// The stock cascade stack: seven levels from 3 to 60 world units, the two
/// finest refreshed every third frame, the others every fifteenth.
pub open spec fn default_cascades() -> Seq<CascadeSettings> {
    seq![
        cascade(3072, 3, 0),
        cascade(5120, 3, 1),
        cascade(7680, 15, 2),
        cascade(11520, 15, 5),
        cascade(17408, 15, 8),
        cascade(30720, 15, 11),
        cascade(61440, 15, 14),
    ]
}

fn make_cascade(far_distance: i64, frequency: u32, offset: u32) -> (r: CascadeSettings)
    ensures
        r == cascade(far_distance as int, frequency as int, offset as int),
{
    CascadeSettings { far_distance, update_schedule: CascadeUpdateSchedule { frequency, offset } }
}

impl Default for SceneSdfSettings {
    fn default() -> (r: SceneSdfSettings)
        ensures
            r.filter == ExtractionFilter::Unmarked,
            r.cascades@ == default_cascades(),
    {
        let cascades = vec![
            make_cascade(3072, 3, 0),
            make_cascade(5120, 3, 1),
            make_cascade(7680, 15, 2),
            make_cascade(11520, 15, 5),
            make_cascade(17408, 15, 8),
            make_cascade(30720, 15, 11),
            make_cascade(61440, 15, 14),
        ];
        assert(cascades@ =~= default_cascades());
        SceneSdfSettings { filter: ExtractionFilter::Unmarked, cascades }
    }
}

} // verus!
